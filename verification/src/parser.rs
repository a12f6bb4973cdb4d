//! The grammar of source programs, with recovery at statement boundaries.
use vstd::prelude::*;
use vstd::string::*;

use crate::ast;
use crate::ast::{
    AtomView, ConstantView, DeclarationView, LiteralView, ProgramView, RuleView, SourceAtom,
    SourceDeclaration, SourceLiteral, SourceProgram, SourceRule, SourceTerm, SourceValue, Span,
    Spanned, TermView,
};
use crate::lexer;
use crate::lexer::{
    lex, Diagnostic, DiagnosticView, Mark, Token, TokenKind, TokenKindView, TokenView,
};
use crate::text::same_text;

verus! {

/// What parsing a text gives, seen as plain data.
#[verifier::ext_equal]
pub struct ParseView {
    pub program: ProgramView,
    pub diagnostics: Seq<DiagnosticView>,
}

/// A program with the problems found in its text.
#[derive(Debug, Clone, PartialEq, Eq)]
pub struct ParseOutput {
    pub program: SourceProgram,
    pub diagnostics: Vec<Diagnostic>,
}

impl View for ParseOutput {
    type V = ParseView;

    open spec fn view(&self) -> ParseView {
        ParseView { program: self.program@, diagnostics: ast::views(self.diagnostics@) }
    }
}

impl ParseOutput {
    pub fn is_success(&self) -> (success: bool)
        ensures
            success == (self@.diagnostics.len() == 0),
    {
        self.diagnostics.len() == 0
    }
}

/// What reading a phrase gives: the phrase or a problem, and the position after it.
pub type Parsed<T> = (Result<T, DiagnosticView>, int);

/// Whether the token at a position is a punctuation mark.
pub open spec fn at_mark(tokens: Seq<TokenView>, pos: int, mark: Mark) -> bool {
    0 <= pos < tokens.len() && tokens[pos].kind == TokenKindView::Mark(mark)
}

/// The problem that the text ends too early.
pub open spec fn at_end(tokens: Seq<TokenView>, message: Seq<char>) -> DiagnosticView {
    let end = if tokens.len() == 0 {
        0
    } else {
        tokens.last().span.end
    };
    lexer::problem(message, Span { start: end, end })
}

/// Reads a punctuation mark.
pub open spec fn read_mark(
    tokens: Seq<TokenView>,
    pos: int,
    mark: Mark,
    message: Seq<char>,
) -> Parsed<TokenView> {
    if !(0 <= pos < tokens.len()) {
        (Err(at_end(tokens, message)), pos)
    } else if at_mark(tokens, pos, mark) {
        (Ok(tokens[pos]), pos + 1)
    } else {
        (Err(lexer::problem(message, tokens[pos].span)), pos + 1)
    }
}

/// Reads a name.
pub open spec fn read_name(
    tokens: Seq<TokenView>,
    pos: int,
    message: Seq<char>,
) -> Parsed<(Seq<char>, Span)> {
    if !(0 <= pos < tokens.len()) {
        (Err(at_end(tokens, message)), pos)
    } else {
        match tokens[pos].kind {
            TokenKindView::Ident(name) => (Ok((name, tokens[pos].span)), pos + 1),
            _ => (Err(lexer::problem(message, tokens[pos].span)), pos + 1),
        }
    }
}

/// Reads a variable or a constant.
pub open spec fn read_term(tokens: Seq<TokenView>, pos: int) -> Parsed<(TermView, Span)> {
    let message = "expected a variable or constant"@;
    if !(0 <= pos < tokens.len()) {
        (Err(at_end(tokens, message)), pos)
    } else {
        let span = tokens[pos].span;
        match tokens[pos].kind {
            TokenKindView::Ident(name) => (Ok((TermView::Variable(name), span)), pos + 1),
            TokenKindView::Symbol(value) => (
                Ok((TermView::Constant(ConstantView::Symbol(value)), span)),
                pos + 1,
            ),
            TokenKindView::String(value) => (
                Ok((TermView::Constant(ConstantView::String(value)), span)),
                pos + 1,
            ),
            TokenKindView::Number(value) => (
                Ok((TermView::Constant(ConstantView::U32(value)), span)),
                pos + 1,
            ),
            _ => (Err(lexer::problem(message, span)), pos + 1),
        }
    }
}

/// Reads terms separated by commas, after the terms `before`.
pub open spec fn read_terms(
    tokens: Seq<TokenView>,
    pos: int,
    before: Seq<(TermView, Span)>,
) -> Parsed<Seq<(TermView, Span)>>
    decreases tokens.len() - pos,
{
    match read_term(tokens, pos) {
        (Ok(term), next) => if at_mark(tokens, next, Mark::Comma) && next >= pos {
            read_terms(tokens, next + 1, before.push(term))
        } else {
            (Ok(before.push(term)), next)
        },
        (Err(error), next) => (Err(error), next),
    }
}

/// Reads an atom: a name, and terms in parentheses.
pub open spec fn read_atom(tokens: Seq<TokenView>, pos: int) -> Parsed<AtomView> {
    match read_name(tokens, pos, "expected a predicate name"@) {
        (Err(error), next) => (Err(error), next),
        (Ok(predicate), after_name) => match read_mark(
            tokens,
            after_name,
            Mark::LeftParen,
            "expected `(` after predicate name"@,
        ) {
            (Err(error), next) => (Err(error), next),
            (Ok(_), inside) => {
                let terms: Parsed<Seq<(TermView, Span)>> = if at_mark(
                    tokens,
                    inside,
                    Mark::RightParen,
                ) {
                    (Ok(Seq::empty()), inside)
                } else {
                    read_terms(tokens, inside, Seq::empty())
                };
                match terms {
                    (Err(error), next) => (Err(error), next),
                    (Ok(terms), after_terms) => match read_mark(
                        tokens,
                        after_terms,
                        Mark::RightParen,
                        "expected `)` after atom"@,
                    ) {
                        (Err(error), next) => (Err(error), next),
                        (Ok(right), next) => (
                            Ok(
                                AtomView {
                                    predicate,
                                    terms,
                                    span: predicate.1.joined(right.span),
                                },
                            ),
                            next,
                        ),
                    },
                }
            },
        },
    }
}

/// Reads an atom, negated if an exclamation mark precedes it.
pub open spec fn read_literal(tokens: Seq<TokenView>, pos: int) -> Parsed<LiteralView> {
    let negated = at_mark(tokens, pos, Mark::Bang);
    match read_atom(
        tokens,
        if negated {
            pos + 1
        } else {
            pos
        },
    ) {
        (Err(error), next) => (Err(error), next),
        (Ok(atom), next) => (
            Ok(
                LiteralView {
                    negated,
                    atom,
                    span: if negated {
                        tokens[pos].span.joined(atom.span)
                    } else {
                        atom.span
                    },
                },
            ),
            next,
        ),
    }
}

/// Reads literals separated by commas, after the literals `before`.
pub open spec fn read_body(
    tokens: Seq<TokenView>,
    pos: int,
    before: Seq<LiteralView>,
) -> Parsed<Seq<LiteralView>>
    decreases tokens.len() - pos,
{
    match read_literal(tokens, pos) {
        (Ok(literal), next) => if at_mark(tokens, next, Mark::Comma) && next >= pos {
            read_body(tokens, next + 1, before.push(literal))
        } else {
            (Ok(before.push(literal)), next)
        },
        (Err(error), next) => (Err(error), next),
    }
}

/// Reads a rule: a head, a body if `:-` follows, and a dot.
pub open spec fn read_rule(tokens: Seq<TokenView>, pos: int) -> Parsed<RuleView> {
    match read_atom(tokens, pos) {
        (Err(error), next) => (Err(error), next),
        (Ok(head), after_head) => {
            let body: Parsed<Seq<LiteralView>> = if at_mark(tokens, after_head, Mark::ColonDash) {
                read_body(tokens, after_head + 1, Seq::empty())
            } else {
                (Ok(Seq::empty()), after_head)
            };
            match body {
                (Err(error), next) => (Err(error), next),
                (Ok(body), after_body) => match read_mark(
                    tokens,
                    after_body,
                    Mark::Dot,
                    "expected `.` after rule"@,
                ) {
                    (Err(error), next) => (Err(error), next),
                    (Ok(dot), next) => (
                        Ok(RuleView { head, body, span: head.span.joined(dot.span) }),
                        next,
                    ),
                },
            }
        },
    }
}

/// A directive, seen as plain data.
pub enum DirectiveView {
    Declaration(DeclarationView),
    Input((Seq<char>, Span)),
    Output((Seq<char>, Span)),
}

/// Reads attributes `name: type` separated by commas, and counts them on from `before`.
pub open spec fn read_attributes(tokens: Seq<TokenView>, pos: int, before: nat) -> Parsed<nat>
    decreases tokens.len() - pos,
{
    match read_name(tokens, pos, "expected an attribute name"@) {
        (Err(error), next) => (Err(error), next),
        (Ok(_), after_name) => match read_mark(
            tokens,
            after_name,
            Mark::Colon,
            "expected `:` after attribute name"@,
        ) {
            (Err(error), next) => (Err(error), next),
            (Ok(_), after_colon) => match read_name(
                tokens,
                after_colon,
                "expected an attribute type"@,
            ) {
                (Err(error), next) => (Err(error), next),
                (Ok(_), next) => if at_mark(tokens, next, Mark::Comma) && next >= pos {
                    read_attributes(tokens, next + 1, before + 1)
                } else {
                    (Ok(before + 1), next)
                },
            },
        },
    }
}

/// Reads what follows `.decl`: a predicate name, and attributes in parentheses.
pub open spec fn read_declaration(tokens: Seq<TokenView>, pos: int) -> Parsed<DeclarationView> {
    match read_name(tokens, pos, "expected predicate name after `.decl`"@) {
        (Err(error), next) => (Err(error), next),
        (Ok(predicate), after_name) => match read_mark(
            tokens,
            after_name,
            Mark::LeftParen,
            "expected `(` after predicate name"@,
        ) {
            (Err(error), next) => (Err(error), next),
            (Ok(_), inside) => {
                let count: Parsed<nat> = if at_mark(tokens, inside, Mark::RightParen) {
                    (Ok(0), inside)
                } else {
                    read_attributes(tokens, inside, 0)
                };
                match count {
                    (Err(error), next) => (Err(error), next),
                    (Ok(count), after_attributes) => match read_mark(
                        tokens,
                        after_attributes,
                        Mark::RightParen,
                        "expected `)` after attributes"@,
                    ) {
                        (Err(error), next) => (Err(error), next),
                        (Ok(_), next) => (
                            Ok(DeclarationView { predicate, arity: count as usize }),
                            next,
                        ),
                    },
                }
            },
        },
    }
}

/// Whether a directive starts at a position.
pub open spec fn at_directive(tokens: Seq<TokenView>, pos: int) -> bool {
    &&& at_mark(tokens, pos, Mark::Dot)
    &&& pos + 1 < tokens.len()
    &&& match tokens[pos + 1].kind {
        TokenKindView::Ident(name) => name == "decl"@ || name == "input"@ || name == "output"@,
        _ => false,
    }
}

/// The position after an optional dot that ends a directive.
pub open spec fn after_dot(tokens: Seq<TokenView>, pos: int) -> int {
    if at_mark(tokens, pos, Mark::Dot) && !at_directive(tokens, pos) {
        pos + 1
    } else {
        pos
    }
}

/// Reads a directive: `.decl`, `.input` or `.output`, with an optional dot at its end.
pub open spec fn read_directive(tokens: Seq<TokenView>, pos: int) -> Parsed<DirectiveView> {
    match read_mark(tokens, pos, Mark::Dot, "expected `.output`"@) {
        (Err(error), next) => (Err(error), next),
        (Ok(_), after_mark) => match read_name(
            tokens,
            after_mark,
            "expected `output` after `.`"@,
        ) {
            (Err(error), next) => (Err(error), next),
            (Ok(directive), start) => if directive.0 == "output"@ {
                match read_name(tokens, start, "expected predicate name after `.output`"@) {
                    (Err(error), next) => (Err(error), next),
                    (Ok(name), next) => (
                        Ok(DirectiveView::Output(name)),
                        after_dot(tokens, next),
                    ),
                }
            } else if directive.0 == "input"@ {
                match read_name(tokens, start, "expected predicate name after `.input`"@) {
                    (Err(error), next) => (Err(error), next),
                    (Ok(name), next) => (Ok(DirectiveView::Input(name)), after_dot(tokens, next)),
                }
            } else if directive.0 == "decl"@ {
                match read_declaration(tokens, start) {
                    (Err(error), next) => (Err(error), next),
                    (Ok(declaration), next) => (
                        Ok(DirectiveView::Declaration(declaration)),
                        after_dot(tokens, next),
                    ),
                }
            } else {
                (Err(lexer::problem("unknown directive ."@ + directive.0, directive.1)), start)
            },
        },
    }
}

/// The position after the next dot.
pub open spec fn resume_at(tokens: Seq<TokenView>, pos: int) -> int
    decreases tokens.len() - pos,
{
    if !(0 <= pos < tokens.len()) {
        pos
    } else if at_mark(tokens, pos, Mark::Dot) {
        pos + 1
    } else {
        resume_at(tokens, pos + 1)
    }
}

/// A program with one more directive.
pub open spec fn with_directive(program: ProgramView, directive: DirectiveView) -> ProgramView {
    match directive {
        DirectiveView::Declaration(declaration) => ProgramView {
            declarations: program.declarations.push(declaration),
            ..program
        },
        DirectiveView::Input(name) => ProgramView { inputs: program.inputs.push(name), ..program },
        DirectiveView::Output(name) => ProgramView {
            outputs: program.outputs.push(name),
            ..program
        },
    }
}

/// A program after one statement, the problem of the statement if it has one, and the position
/// from which to read on: after a problem, behind the next dot.
pub open spec fn read_statement(
    tokens: Seq<TokenView>,
    pos: int,
    program: ProgramView,
) -> (ProgramView, Seq<DiagnosticView>, int) {
    if at_mark(tokens, pos, Mark::Dot) {
        match read_directive(tokens, pos) {
            (Ok(directive), next) => (with_directive(program, directive), Seq::empty(), next),
            (Err(error), next) => (program, seq![error], resume_at(tokens, next)),
        }
    } else {
        match read_rule(tokens, pos) {
            (Ok(rule), next) => (
                ProgramView { rules: program.rules.push(rule), ..program },
                Seq::empty(),
                next,
            ),
            (Err(error), next) => (program, seq![error], resume_at(tokens, next)),
        }
    }
}

/// Reads statements up to the end, after the statements in `program`.
pub open spec fn read_statements(
    tokens: Seq<TokenView>,
    pos: int,
    program: ProgramView,
) -> (ProgramView, Seq<DiagnosticView>)
    decreases tokens.len() - pos,
{
    if 0 <= pos < tokens.len() {
        let (after, problems, next) = read_statement(tokens, pos, program);
        if pos < next <= tokens.len() {
            let rest = read_statements(tokens, next, after);
            (rest.0, problems + rest.1)
        } else {
            (after, problems)
        }
    } else {
        (program, Seq::empty())
    }
}

pub open spec fn empty_program() -> ProgramView {
    ProgramView {
        rules: Seq::empty(),
        declarations: Seq::empty(),
        inputs: Seq::empty(),
        outputs: Seq::empty(),
    }
}

/// The program that a text denotes, and the problems in the text: those of its tokens first.
pub open spec fn parsed(text: Seq<char>) -> ParseView {
    let (tokens, problems) = lexer::lex_from(text, 0);
    let (program, more) = read_statements(tokens, 0, empty_program());
    ParseView { program, diagnostics: problems + more }
}

/// Whether a result is the expected one.
pub open spec fn agrees<T: View>(
    result: Result<T, Diagnostic>,
    expected: Result<T::V, DiagnosticView>,
) -> bool {
    match result {
        Ok(value) => expected == Ok::<T::V, DiagnosticView>(value@),
        Err(error) => expected == Err::<T::V, DiagnosticView>(error@),
    }
}

enum Directive {
    Declaration(SourceDeclaration),
    Input(Spanned<String>),
    Output(Spanned<String>),
}

impl View for Directive {
    type V = DirectiveView;

    closed spec fn view(&self) -> DirectiveView {
        match self {
            Directive::Declaration(declaration) => DirectiveView::Declaration(declaration@),
            Directive::Input(name) => DirectiveView::Input(name@),
            Directive::Output(name) => DirectiveView::Output(name@),
        }
    }
}

struct Parser {
    tokens: Vec<Token>,
    position: usize,
    diagnostics: Vec<Diagnostic>,
}

impl Parser {
    spec fn seen(&self) -> Seq<TokenView> {
        ast::views(self.tokens@)
    }

    spec fn wf(&self) -> bool {
        self.position <= self.tokens@.len()
    }

    /// Whether only the position differs, and has not gone back.
    spec fn moved_from(&self, before: Self) -> bool {
        &&& self.wf()
        &&& self.tokens == before.tokens
        &&& self.diagnostics == before.diagnostics
        &&& before.position <= self.position
    }

    fn advance(&mut self)
        requires
            old(self).position < old(self).tokens@.len(),
        ensures
            final(self).moved_from(*old(self)),
            final(self).position == old(self).position + 1,
    {
        assert(self.position < self.tokens.len());
        self.position = self.position + 1;
    }

    fn check(&self, mark: Mark) -> (r: bool)
        requires
            self.wf(),
        ensures
            r == at_mark(self.seen(), self.position as int, mark),
    {
        if self.position < self.tokens.len() {
            assert(self.seen()[self.position as int] == self.tokens@[self.position as int]@);
            match &self.tokens[self.position].kind {
                TokenKind::Mark(found) => *found == mark,
                _ => false,
            }
        } else {
            false
        }
    }

    fn consume_if(&mut self, mark: Mark) -> (r: bool)
        requires
            old(self).wf(),
        ensures
            final(self).moved_from(*old(self)),
            r == at_mark(old(self).seen(), old(self).position as int, mark),
            final(self).position == old(self).position + if r {
                1int
            } else {
                0int
            },
    {
        if self.check(mark) {
            self.advance();
            true
        } else {
            false
        }
    }

    fn is_finished(&self) -> (r: bool)
        ensures
            r == (self.position >= self.tokens@.len()),
    {
        self.position >= self.tokens.len()
    }

    /// The problem that the text ends too early.
    fn error_at_end(&self, message: &str) -> (error: Diagnostic)
        ensures
            error@ == at_end(self.seen(), message@),
    {
        let count: usize = self.tokens.len();
        let end: usize = if count == 0 {
            0
        } else {
            assert(self.seen().last() == self.tokens@[count - 1]@);
            self.tokens[count - 1].span.end
        };
        Diagnostic { message: message.to_owned(), span: Span::new(end, end) }
    }

    fn expect(&mut self, mark: Mark, message: &str) -> (result: Result<Span, Diagnostic>)
        requires
            old(self).wf(),
        ensures
            final(self).moved_from(*old(self)),
            ({
                let expected = read_mark(
                    old(self).seen(),
                    old(self).position as int,
                    mark,
                    message@,
                );
                &&& final(self).position == expected.1
                &&& match result {
                    Ok(span) => expected.0 is Ok && expected.0->Ok_0.span == span,
                    Err(error) => expected.0 == Err::<TokenView, DiagnosticView>(error@),
                }
            }),
    {
        if self.is_finished() {
            return Err(self.error_at_end(message));
        }
        let found = self.check(mark);
        assert(self.seen()[self.position as int] == self.tokens@[self.position as int]@);
        let span = self.tokens[self.position].span;
        self.advance();
        if found {
            Ok(span)
        } else {
            Err(Diagnostic { message: message.to_owned(), span })
        }
    }

    fn expect_ident(&mut self, message: &str) -> (result: Result<Spanned<String>, Diagnostic>)
        requires
            old(self).wf(),
        ensures
            final(self).moved_from(*old(self)),
            ({
                let expected = read_name(old(self).seen(), old(self).position as int, message@);
                &&& final(self).position == expected.1
                &&& agrees(result, expected.0)
            }),
            old(self).position < old(self).tokens@.len() ==> old(self).position
                < final(self).position,
    {
        if self.is_finished() {
            return Err(self.error_at_end(message));
        }
        assert(self.seen()[self.position as int] == self.tokens@[self.position as int]@);
        let token = &self.tokens[self.position];
        let span = token.span;
        let result = match &token.kind {
            TokenKind::Ident(name) => Ok(Spanned::new(name.clone(), span)),
            _ => Err(Diagnostic { message: message.to_owned(), span }),
        };
        self.advance();
        result
    }

    fn parse_term(&mut self) -> (result: Result<Spanned<SourceTerm>, Diagnostic>)
        requires
            old(self).wf(),
        ensures
            final(self).moved_from(*old(self)),
            ({
                let expected = read_term(old(self).seen(), old(self).position as int);
                &&& final(self).position == expected.1
                &&& agrees(result, expected.0)
            }),
    {
        if self.is_finished() {
            return Err(self.error_at_end("expected a variable or constant"));
        }
        assert(self.seen()[self.position as int] == self.tokens@[self.position as int]@);
        let token = &self.tokens[self.position];
        let span = token.span;
        let result = match &token.kind {
            TokenKind::Ident(name) => Ok(
                Spanned::new(SourceTerm::Variable(name.clone()), span),
            ),
            TokenKind::Symbol(value) => Ok(
                Spanned::new(SourceTerm::Constant(SourceValue::Symbol(value.clone())), span),
            ),
            TokenKind::String(value) => Ok(
                Spanned::new(SourceTerm::Constant(SourceValue::String(value.clone())), span),
            ),
            TokenKind::Number(value) => Ok(
                Spanned::new(SourceTerm::Constant(SourceValue::U32(*value)), span),
            ),
            _ => Err(
                Diagnostic { message: "expected a variable or constant".to_owned(), span },
            ),
        };
        self.advance();
        result
    }

    fn parse_terms(&mut self) -> (result: Result<Vec<Spanned<SourceTerm>>, Diagnostic>)
        requires
            old(self).wf(),
        ensures
            final(self).moved_from(*old(self)),
            ({
                let expected = read_terms(
                    old(self).seen(),
                    old(self).position as int,
                    Seq::empty(),
                );
                &&& final(self).position == expected.1
                &&& match result {
                    Ok(terms) => expected.0 == Ok::<Seq<(TermView, Span)>, DiagnosticView>(
                        ast::views(terms@),
                    ),
                    Err(error) => expected.0 == Err::<Seq<(TermView, Span)>, DiagnosticView>(
                        error@,
                    ),
                }
            }),
    {
        let ghost start = *self;
        let ghost tokens = self.seen();
        let mut terms: Vec<Spanned<SourceTerm>> = Vec::new();
        assert(ast::views(terms@) =~= Seq::<(TermView, Span)>::empty());
        loop
            invariant
                self.moved_from(start),
                start == *old(self),
                tokens == start.seen(),
                read_terms(tokens, start.position as int, Seq::empty()) == read_terms(
                    tokens,
                    self.position as int,
                    ast::views(terms@),
                ),
            decreases self.tokens@.len() - self.position,
        {
            let ghost before = ast::views(terms@);
            let ghost at = self.position as int;
            match self.parse_term() {
                Ok(term) => {
                    let ghost view = term@;
                    terms.push(term);
                    assert(ast::views(terms@) =~= before.push(view));
                },
                Err(error) => {
                    return Err(error);
                },
            }
            if !self.consume_if(Mark::Comma) {
                return Ok(terms);
            }
        }
    }

    fn parse_atom(&mut self) -> (result: Result<SourceAtom, Diagnostic>)
        requires
            old(self).wf(),
        ensures
            final(self).moved_from(*old(self)),
            ({
                let expected = read_atom(old(self).seen(), old(self).position as int);
                &&& final(self).position == expected.1
                &&& agrees(result, expected.0)
            }),
            old(self).position < old(self).tokens@.len() ==> old(self).position
                < final(self).position,
    {
        let predicate = match self.expect_ident("expected a predicate name") {
            Ok(predicate) => predicate,
            Err(error) => {
                return Err(error);
            },
        };
        match self.expect(Mark::LeftParen, "expected `(` after predicate name") {
            Ok(_) => {},
            Err(error) => {
                return Err(error);
            },
        }
        let terms: Vec<Spanned<SourceTerm>> = if self.check(Mark::RightParen) {
            Vec::new()
        } else {
            match self.parse_terms() {
                Ok(terms) => terms,
                Err(error) => {
                    return Err(error);
                },
            }
        };
        proof {
            if terms@.len() == 0 {
                assert(ast::views(terms@) =~= Seq::<(TermView, Span)>::empty());
            }
        }
        match self.expect(Mark::RightParen, "expected `)` after atom") {
            Ok(right) => {
                let span = predicate.span.join(right);
                Ok(SourceAtom { predicate, terms, span })
            },
            Err(error) => Err(error),
        }
    }

    fn parse_literal(&mut self) -> (result: Result<SourceLiteral, Diagnostic>)
        requires
            old(self).wf(),
        ensures
            final(self).moved_from(*old(self)),
            ({
                let expected = read_literal(old(self).seen(), old(self).position as int);
                &&& final(self).position == expected.1
                &&& agrees(result, expected.0)
            }),
    {
        let negated = self.check(Mark::Bang);
        let span = if negated {
            assert(self.seen()[self.position as int] == self.tokens@[self.position as int]@);
            self.tokens[self.position].span
        } else {
            Span::new(0, 0)
        };
        if negated {
            self.advance();
        }
        match self.parse_atom() {
            Ok(atom) => {
                let span = if negated {
                    span.join(atom.span)
                } else {
                    atom.span
                };
                Ok(SourceLiteral { negated, atom, span })
            },
            Err(error) => Err(error),
        }
    }

    fn parse_body(&mut self) -> (result: Result<Vec<SourceLiteral>, Diagnostic>)
        requires
            old(self).wf(),
        ensures
            final(self).moved_from(*old(self)),
            ({
                let expected = read_body(
                    old(self).seen(),
                    old(self).position as int,
                    Seq::empty(),
                );
                &&& final(self).position == expected.1
                &&& match result {
                    Ok(body) => expected.0 == Ok::<Seq<LiteralView>, DiagnosticView>(
                        ast::views(body@),
                    ),
                    Err(error) => expected.0 == Err::<Seq<LiteralView>, DiagnosticView>(error@),
                }
            }),
    {
        let ghost start = *self;
        let ghost tokens = self.seen();
        let mut body: Vec<SourceLiteral> = Vec::new();
        assert(ast::views(body@) =~= Seq::<LiteralView>::empty());
        loop
            invariant
                self.moved_from(start),
                start == *old(self),
                tokens == start.seen(),
                read_body(tokens, start.position as int, Seq::empty()) == read_body(
                    tokens,
                    self.position as int,
                    ast::views(body@),
                ),
            decreases self.tokens@.len() - self.position,
        {
            let ghost before = ast::views(body@);
            match self.parse_literal() {
                Ok(literal) => {
                    let ghost view = literal@;
                    body.push(literal);
                    assert(ast::views(body@) =~= before.push(view));
                },
                Err(error) => {
                    return Err(error);
                },
            }
            if !self.consume_if(Mark::Comma) {
                return Ok(body);
            }
        }
    }

    fn parse_rule(&mut self) -> (result: Result<SourceRule, Diagnostic>)
        requires
            old(self).wf(),
        ensures
            final(self).moved_from(*old(self)),
            ({
                let expected = read_rule(old(self).seen(), old(self).position as int);
                &&& final(self).position == expected.1
                &&& agrees(result, expected.0)
            }),
            old(self).position < old(self).tokens@.len() ==> old(self).position
                < final(self).position,
    {
        let head = match self.parse_atom() {
            Ok(head) => head,
            Err(error) => {
                return Err(error);
            },
        };
        let body: Vec<SourceLiteral> = if self.consume_if(Mark::ColonDash) {
            match self.parse_body() {
                Ok(body) => body,
                Err(error) => {
                    return Err(error);
                },
            }
        } else {
            Vec::new()
        };
        proof {
            if body@.len() == 0 {
                assert(ast::views(body@) =~= Seq::<LiteralView>::empty());
            }
        }
        match self.expect(Mark::Dot, "expected `.` after rule") {
            Ok(dot) => {
                let span = head.span.join(dot);
                Ok(SourceRule { head, body, span })
            },
            Err(error) => Err(error),
        }
    }

    fn parse_attributes(&mut self) -> (result: Result<usize, Diagnostic>)
        requires
            old(self).wf(),
        ensures
            final(self).moved_from(*old(self)),
            ({
                let expected = read_attributes(old(self).seen(), old(self).position as int, 0);
                &&& final(self).position == expected.1
                &&& match result {
                    Ok(count) => expected.0 == Ok::<nat, DiagnosticView>(count as nat),
                    Err(error) => expected.0 == Err::<nat, DiagnosticView>(error@),
                }
            }),
    {
        let ghost start = *self;
        let ghost tokens = self.seen();
        let mut count: usize = 0;
        loop
            invariant
                self.moved_from(start),
                start == *old(self),
                tokens == start.seen(),
                count <= self.position,
                read_attributes(tokens, start.position as int, 0) == read_attributes(
                    tokens,
                    self.position as int,
                    count as nat,
                ),
            decreases self.tokens@.len() - self.position,
        {
            match self.expect_ident("expected an attribute name") {
                Ok(_) => {},
                Err(error) => {
                    return Err(error);
                },
            }
            match self.expect(Mark::Colon, "expected `:` after attribute name") {
                Ok(_) => {},
                Err(error) => {
                    return Err(error);
                },
            }
            match self.expect_ident("expected an attribute type") {
                Ok(_) => {},
                Err(error) => {
                    return Err(error);
                },
            }
            assert(count < self.position);
            count = count + 1;
            if !self.consume_if(Mark::Comma) {
                return Ok(count);
            }
        }
    }

    fn parse_declaration(&mut self) -> (result: Result<SourceDeclaration, Diagnostic>)
        requires
            old(self).wf(),
        ensures
            final(self).moved_from(*old(self)),
            ({
                let expected = read_declaration(old(self).seen(), old(self).position as int);
                &&& final(self).position == expected.1
                &&& agrees(result, expected.0)
            }),
    {
        let predicate = match self.expect_ident("expected predicate name after `.decl`") {
            Ok(predicate) => predicate,
            Err(error) => {
                return Err(error);
            },
        };
        match self.expect(Mark::LeftParen, "expected `(` after predicate name") {
            Ok(_) => {},
            Err(error) => {
                return Err(error);
            },
        }
        let arity: usize = if self.check(Mark::RightParen) {
            0
        } else {
            match self.parse_attributes() {
                Ok(count) => count,
                Err(error) => {
                    return Err(error);
                },
            }
        };
        match self.expect(Mark::RightParen, "expected `)` after attributes") {
            Ok(_) => Ok(SourceDeclaration { predicate, arity }),
            Err(error) => Err(error),
        }
    }

    fn check_directive(&self) -> (r: bool)
        requires
            self.wf(),
        ensures
            r == at_directive(self.seen(), self.position as int),
    {
        if !self.check(Mark::Dot) || self.tokens.len() - self.position <= 1 {
            return false;
        }
        assert(self.seen()[self.position + 1] == self.tokens@[self.position + 1]@);
        match &self.tokens[self.position + 1].kind {
            TokenKind::Ident(name) => {
                same_text(name.as_str(), "decl") || same_text(name.as_str(), "input") || same_text(
                    name.as_str(),
                    "output",
                )
            },
            _ => false,
        }
    }

    fn skip_dot(&mut self)
        requires
            old(self).wf(),
        ensures
            final(self).moved_from(*old(self)),
            final(self).position == after_dot(old(self).seen(), old(self).position as int),
    {
        if self.check(Mark::Dot) && !self.check_directive() {
            self.advance();
        }
    }

    fn parse_directive(&mut self) -> (result: Result<Directive, Diagnostic>)
        requires
            old(self).wf(),
        ensures
            final(self).moved_from(*old(self)),
            ({
                let expected = read_directive(old(self).seen(), old(self).position as int);
                &&& final(self).position == expected.1
                &&& agrees(result, expected.0)
            }),
            old(self).position < old(self).tokens@.len() ==> old(self).position
                < final(self).position,
    {
        match self.expect(Mark::Dot, "expected `.output`") {
            Ok(_) => {},
            Err(error) => {
                return Err(error);
            },
        }
        let directive = match self.expect_ident("expected `output` after `.`") {
            Ok(directive) => directive,
            Err(error) => {
                return Err(error);
            },
        };
        if same_text(directive.value.as_str(), "output") {
            match self.expect_ident("expected predicate name after `.output`") {
                Ok(name) => {
                    self.skip_dot();
                    Ok(Directive::Output(name))
                },
                Err(error) => Err(error),
            }
        } else if same_text(directive.value.as_str(), "input") {
            match self.expect_ident("expected predicate name after `.input`") {
                Ok(name) => {
                    self.skip_dot();
                    Ok(Directive::Input(name))
                },
                Err(error) => Err(error),
            }
        } else if same_text(directive.value.as_str(), "decl") {
            match self.parse_declaration() {
                Ok(declaration) => {
                    self.skip_dot();
                    Ok(Directive::Declaration(declaration))
                },
                Err(error) => Err(error),
            }
        } else {
            let mut message = "unknown directive .".to_owned();
            message.append(directive.value.as_str());
            Err(Diagnostic { message, span: directive.span })
        }
    }

    fn synchronize(&mut self)
        requires
            old(self).wf(),
        ensures
            final(self).moved_from(*old(self)),
            final(self).position == resume_at(old(self).seen(), old(self).position as int),
    {
        let ghost start = *self;
        while !self.is_finished()
            invariant
                self.moved_from(start),
                start == *old(self),
                resume_at(start.seen(), self.position as int) == resume_at(
                    start.seen(),
                    start.position as int,
                ),
            decreases self.tokens@.len() - self.position,
        {
            if self.consume_if(Mark::Dot) {
                return ;
            }
            self.advance();
        }
    }

    fn parse_program(&mut self) -> (program: SourceProgram)
        requires
            old(self).wf(),
        ensures
            ({
                let expected = read_statements(
                    old(self).seen(),
                    old(self).position as int,
                    empty_program(),
                );
                &&& program@ == expected.0
                &&& ast::views(final(self).diagnostics@) == ast::views(old(self).diagnostics@) + expected.1
            }),
    {
        let ghost tokens = self.seen();
        let ghost start = self.position as int;
        let ghost known = ast::views(self.diagnostics@);
        let mut program = SourceProgram::default();
        let ghost expected = read_statements(tokens, start, empty_program());
        proof {
            assert(program@ =~= empty_program());
        }
        while !self.is_finished()
            invariant
                self.wf(),
                self.seen() == tokens,
                expected == read_statements(tokens, start, empty_program()),
                tokens == old(self).seen(),
                start == old(self).position,
                known == ast::views(old(self).diagnostics@),
                ({
                    let rest = read_statements(tokens, self.position as int, program@);
                    &&& rest.0 == expected.0
                    &&& ast::views(self.diagnostics@) + rest.1 == known + expected.1
                }),
            decreases self.tokens@.len() - self.position,
        {
            let ghost at = self.position as int;
            let ghost before = program@;
            let ghost problems = ast::views(self.diagnostics@);
            let ghost step = read_statement(tokens, at, before);
            let ghost rest = read_statements(tokens, step.2, step.0);
            let failed: Option<Diagnostic> = if self.check(Mark::Dot) {
                match self.parse_directive() {
                    Ok(Directive::Declaration(declaration)) => {
                        let ghost view = declaration@;
                        program.declarations.push(declaration);
                        assert(program@.declarations =~= before.declarations.push(view));
                        None
                    },
                    Ok(Directive::Input(name)) => {
                        let ghost view = name@;
                        program.inputs.push(name);
                        assert(program@.inputs =~= before.inputs.push(view));
                        None
                    },
                    Ok(Directive::Output(name)) => {
                        let ghost view = name@;
                        program.outputs.push(name);
                        assert(program@.outputs =~= before.outputs.push(view));
                        None
                    },
                    Err(error) => Some(error),
                }
            } else {
                match self.parse_rule() {
                    Ok(rule) => {
                        let ghost view = rule@;
                        program.rules.push(rule);
                        assert(program@.rules =~= before.rules.push(view));
                        None
                    },
                    Err(error) => Some(error),
                }
            };
            match failed {
                Some(error) => {
                    let ghost view = error@;
                    self.diagnostics.push(error);
                    assert(ast::views(self.diagnostics@) =~= problems.push(view));
                    self.synchronize();
                    assert(problems.push(view) + rest.1 =~= problems + (seq![view] + rest.1));
                },
                None => {
                    assert(problems + (Seq::<DiagnosticView>::empty() + rest.1) =~= problems
                        + rest.1);
                },
            }
        }
        proof {
            assert(ast::views(self.diagnostics@) + Seq::<DiagnosticView>::empty() =~= ast::views(
                self.diagnostics@,
            ));
        }
        program
    }
}

/// Parses a source text. Statements with problems are reported and left out.
pub fn parse_program(source: &str) -> (output: ParseOutput)
    ensures
        output@ == parsed(source@),
{
    let (tokens, mut diagnostics) = lex(source);
    let ghost problems = ast::views(diagnostics@);
    let ghost view = ast::views(tokens@);
    let mut parser = Parser { tokens, position: 0, diagnostics: Vec::new() };
    assert(ast::views(parser.diagnostics@) =~= Seq::<DiagnosticView>::empty());
    let program = parser.parse_program();
    let ghost more = read_statements(view, 0, empty_program()).1;
    assert(Seq::<DiagnosticView>::empty() + more =~= more);
    let mut found = parser.diagnostics;
    let ghost all = diagnostics@ + found@;
    diagnostics.append(&mut found);
    assert(ast::views(diagnostics@) =~= problems + more);
    ParseOutput { program, diagnostics }
}

} // verus!
