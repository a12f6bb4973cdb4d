//! Which tokens a phrase is made of, and what reading them gives.
use vstd::prelude::*;

use crate::ast::{
    AtomView, ConstantView, DeclarationView, LiteralView, ProgramView, RuleView, Span, TermView,
};
use crate::lexer;
use crate::lexer::{DiagnosticView, Mark, TokenKindView, TokenView};
use crate::parser;
use crate::parser::DirectiveView;

verus! {

/// Whether a punctuation mark stands at a position.
pub open spec fn has_mark(tokens: Seq<TokenView>, at: int, mark: Mark) -> bool {
    0 <= at < tokens.len() && tokens[at].kind == TokenKindView::Mark(mark)
}

/// Whether a name stands at a position.
pub open spec fn has_name(tokens: Seq<TokenView>, at: int) -> bool {
    0 <= at < tokens.len() && tokens[at].kind is Ident
}

/// Whether a given name stands at a position, with its span.
pub open spec fn is_named(tokens: Seq<TokenView>, at: int, name: (Seq<char>, Span)) -> bool {
    &&& 0 <= at < tokens.len()
    &&& tokens[at].kind == TokenKindView::Ident(name.0)
    &&& tokens[at].span == name.1
}

/// Whether a span goes from the first of two spans to the last, whichever comes first.
pub open spec fn covers(span: Span, a: Span, b: Span) -> bool {
    &&& span.start <= a.start && span.start <= b.start
    &&& span.start == a.start || span.start == b.start
    &&& span.end >= a.end && span.end >= b.end
    &&& span.end == a.end || span.end == b.end
}

/// Whether a token is a term: a name is a variable, and the others are what they denote.
pub open spec fn is_term(token: TokenView, term: (TermView, Span)) -> bool {
    &&& term.1 == token.span
    &&& match term.0 {
        TermView::Variable(name) => token.kind == TokenKindView::Ident(name),
        TermView::Constant(ConstantView::U32(value)) => token.kind == TokenKindView::Number(value),
        TermView::Constant(ConstantView::String(value)) => token.kind == TokenKindView::String(
            value,
        ),
        TermView::Constant(ConstantView::Symbol(value)) => token.kind == TokenKindView::Symbol(
            value,
        ),
    }
}

/// Whether tokens are terms with a comma between each and the next.
pub open spec fn is_terms(
    tokens: Seq<TokenView>,
    from: int,
    to: int,
    terms: Seq<(TermView, Span)>,
) -> bool {
    &&& 0 < terms.len()
    &&& to == from + 2 * terms.len() - 1
    &&& 0 <= from && to <= tokens.len()
    &&& forall|i: int|
        0 <= i < terms.len() ==> is_term(tokens[from + 2 * i], #[trigger] terms[i]) && (i
            < terms.len() - 1 ==> tokens[from + 2 * i + 1].kind == TokenKindView::Mark(Mark::Comma))
}

/// Whether tokens are an atom: a name, and terms in parentheses.
pub open spec fn is_atom(tokens: Seq<TokenView>, from: int, to: int, atom: AtomView) -> bool {
    &&& is_named(tokens, from, atom.predicate)
    &&& has_mark(tokens, from + 1, Mark::LeftParen)
    &&& has_mark(tokens, to - 1, Mark::RightParen)
    &&& covers(atom.span, tokens[from].span, tokens[to - 1].span)
    &&& if atom.terms.len() == 0 {
        to == from + 3
    } else {
        is_terms(tokens, from + 2, to - 1, atom.terms)
    }
}

/// Whether tokens are a literal: an atom, behind an exclamation mark if it is negated.
pub open spec fn is_literal(tokens: Seq<TokenView>, from: int, to: int, literal: LiteralView) -> bool {
    if literal.negated {
        &&& has_mark(tokens, from, Mark::Bang)
        &&& is_atom(tokens, from + 1, to, literal.atom)
        &&& covers(literal.span, tokens[from].span, literal.atom.span)
    } else {
        &&& is_atom(tokens, from, to, literal.atom)
        &&& literal.span == literal.atom.span
    }
}

/// Whether tokens are literals with a comma between each and the next.
pub open spec fn is_body(
    tokens: Seq<TokenView>,
    from: int,
    to: int,
    body: Seq<LiteralView>,
) -> bool
    decreases body.len(),
{
    if body.len() == 0 {
        false
    } else if body.len() == 1 {
        is_literal(tokens, from, to, body[0])
    } else {
        exists|comma: int| #[trigger]
            has_mark(tokens, comma, Mark::Comma) && is_literal(tokens, from, comma, body[0])
                && is_body(tokens, comma + 1, to, body.skip(1))
    }
}

/// Whether tokens are a rule: a head, `:-` and a body unless it is a fact, and a dot.
pub open spec fn is_rule(tokens: Seq<TokenView>, from: int, to: int, rule: RuleView) -> bool {
    &&& has_mark(tokens, to - 1, Mark::Dot)
    &&& covers(rule.span, rule.head.span, tokens[to - 1].span)
    &&& if rule.body.len() == 0 {
        is_atom(tokens, from, to - 1, rule.head)
    } else {
        exists|neck: int| #[trigger]
            has_mark(tokens, neck, Mark::ColonDash) && is_atom(tokens, from, neck, rule.head)
                && is_body(tokens, neck + 1, to - 1, rule.body)
    }
}

/// Whether the attribute with a number is a name, a colon and a name, with a comma behind it unless
/// it is the last.
pub open spec fn is_attribute(tokens: Seq<TokenView>, from: int, i: int, count: int) -> bool {
    &&& has_name(tokens, from + 4 * i)
    &&& has_mark(tokens, from + 4 * i + 1, Mark::Colon)
    &&& has_name(tokens, from + 4 * i + 2)
    &&& i < count - 1 ==> has_mark(tokens, from + 4 * i + 3, Mark::Comma)
}

/// Whether tokens are attributes, each a name, a colon and a name, with commas between them.
pub open spec fn is_attributes(tokens: Seq<TokenView>, from: int, to: int, count: int) -> bool {
    &&& 0 < count
    &&& to == from + 4 * count - 1
    &&& forall|i: int| 0 <= i < count ==> #[trigger] is_attribute(tokens, from, i, count)
}

/// Whether a directive with a given word starts at a position.
pub open spec fn is_word(tokens: Seq<TokenView>, at: int, word: Seq<char>) -> bool {
    &&& has_mark(tokens, at, Mark::Dot)
    &&& has_name(tokens, at + 1)
    &&& tokens[at + 1].kind == TokenKindView::Ident(word)
}

/// Whether tokens are a declaration: `.decl`, a name, and attributes in parentheses.
pub open spec fn is_declaration(
    tokens: Seq<TokenView>,
    from: int,
    to: int,
    declaration: DeclarationView,
) -> bool {
    &&& is_word(tokens, from, "decl"@)
    &&& is_named(tokens, from + 2, declaration.predicate)
    &&& has_mark(tokens, from + 3, Mark::LeftParen)
    &&& has_mark(tokens, to - 1, Mark::RightParen)
    &&& if declaration.arity == 0 {
        to == from + 5
    } else {
        is_attributes(tokens, from + 4, to - 1, declaration.arity as int)
    }
}

/// Where a directive that goes up to a position really ends: behind a dot, unless the dot starts
/// the next directive.
pub open spec fn is_end(tokens: Seq<TokenView>, to: int, end: int) -> bool {
    if has_mark(tokens, to, Mark::Dot) && !is_word(tokens, to, "decl"@) && !is_word(
        tokens,
        to,
        "input"@,
    ) && !is_word(tokens, to, "output"@) {
        end == to + 1
    } else {
        end == to
    }
}

proof fn lemma_terms(
    tokens: Seq<TokenView>,
    from: int,
    to: int,
    before: Seq<(TermView, Span)>,
    terms: Seq<(TermView, Span)>,
)
    requires
        is_terms(tokens, from, to, terms),
        !has_mark(tokens, to, Mark::Comma),
    ensures
        parser::read_terms(tokens, from, before) == (
            Ok::<Seq<(TermView, Span)>, DiagnosticView>(before + terms),
            to,
        ),
    decreases terms.len(),
{
    assert(is_term(tokens[from + 2 * 0], terms[0]));
    assert(parser::read_term(tokens, from).0 == Ok::<(TermView, Span), DiagnosticView>(terms[0]));
    if terms.len() == 1 {
        assert(before.push(terms[0]) =~= before + terms);
    } else {
        let rest = terms.skip(1);
        assert forall|i: int| 0 <= i < rest.len() implies is_term(
            tokens[from + 2 + 2 * i],
            #[trigger] rest[i],
        ) && (i < rest.len() - 1 ==> tokens[from + 2 + 2 * i + 1].kind == TokenKindView::Mark(
            Mark::Comma,
        )) by {
            assert(is_term(tokens[from + 2 * (i + 1)], terms[i + 1]));
        }
        lemma_terms(tokens, from + 2, to, before.push(terms[0]), rest);
        assert(before.push(terms[0]) + rest =~= before + terms);
    }
}

proof fn lemma_terms_read(
    tokens: Seq<TokenView>,
    from: int,
    before: Seq<(TermView, Span)>,
) -> (terms: Seq<(TermView, Span)>)
    requires
        0 <= from,
        parser::read_terms(tokens, from, before).0 is Ok,
    ensures
        is_terms(tokens, from, parser::read_terms(tokens, from, before).1, terms),
        parser::read_terms(tokens, from, before).0->Ok_0 == before + terms,
    decreases tokens.len() - from,
{
    let first = parser::read_term(tokens, from).0->Ok_0;
    assert(is_term(tokens[from], first));
    if parser::at_mark(tokens, from + 1, Mark::Comma) {
        let rest = lemma_terms_read(tokens, from + 2, before.push(first));
        let terms = seq![first] + rest;
        assert(before.push(first) + rest =~= before + terms);
        assert forall|i: int| 0 <= i < terms.len() implies is_term(
            tokens[from + 2 * i],
            #[trigger] terms[i],
        ) && (i < terms.len() - 1 ==> tokens[from + 2 * i + 1].kind == TokenKindView::Mark(
            Mark::Comma,
        )) by {
            if i > 0 {
                assert(is_term(tokens[from + 2 + 2 * (i - 1)], rest[i - 1]));
            }
        }
        terms
    } else {
        let terms = seq![first];
        assert(before.push(first) =~= before + terms);
        terms
    }
}

proof fn lemma_covers(span: Span, a: Span, b: Span)
    ensures
        covers(span, a, b) <==> span == a.joined(b),
{
}

/// An atom is read exactly from the tokens that make it.
pub proof fn law_atoms(tokens: Seq<TokenView>, from: int, to: int, atom: AtomView)
    requires
        0 <= from,
    ensures
        is_atom(tokens, from, to, atom) <==> parser::read_atom(tokens, from) == (
            Ok::<AtomView, DiagnosticView>(atom),
            to,
        ),
{
    if is_atom(tokens, from, to, atom) {
        lemma_covers(atom.span, tokens[from].span, tokens[to - 1].span);
        if atom.terms.len() == 0 {
            assert(atom.terms =~= Seq::empty());
        } else {
            assert(is_term(tokens[from + 2 + 2 * 0], atom.terms[0]));
            assert(!parser::at_mark(tokens, from + 2, Mark::RightParen));
            lemma_terms(tokens, from + 2, to - 1, Seq::empty(), atom.terms);
            assert(Seq::<(TermView, Span)>::empty() + atom.terms =~= atom.terms);
        }
    }
    if parser::read_atom(tokens, from) == (Ok::<AtomView, DiagnosticView>(atom), to) {
        if !parser::at_mark(tokens, from + 2, Mark::RightParen) {
            let terms = lemma_terms_read(tokens, from + 2, Seq::empty());
            assert(Seq::<(TermView, Span)>::empty() + terms =~= terms);
        }
        lemma_covers(atom.span, tokens[from].span, tokens[to - 1].span);
    }
}

/// A literal is read exactly from the tokens that make it.
pub proof fn law_literals(tokens: Seq<TokenView>, from: int, to: int, literal: LiteralView)
    requires
        0 <= from,
    ensures
        is_literal(tokens, from, to, literal) <==> parser::read_literal(tokens, from) == (
            Ok::<LiteralView, DiagnosticView>(literal),
            to,
        ),
{
    let negated = parser::at_mark(tokens, from, Mark::Bang);
    let start = if negated {
        from + 1
    } else {
        from
    };
    law_atoms(tokens, start, to, literal.atom);
    lemma_covers(literal.span, tokens[from].span, literal.atom.span);
    if is_literal(tokens, from, to, literal) {
        assert(literal.negated == negated);
    }
}

proof fn lemma_body(
    tokens: Seq<TokenView>,
    from: int,
    to: int,
    before: Seq<LiteralView>,
    body: Seq<LiteralView>,
)
    requires
        0 <= from,
        is_body(tokens, from, to, body),
        !has_mark(tokens, to, Mark::Comma),
    ensures
        parser::read_body(tokens, from, before) == (
            Ok::<Seq<LiteralView>, DiagnosticView>(before + body),
            to,
        ),
    decreases body.len(),
{
    if body.len() == 1 {
        law_literals(tokens, from, to, body[0]);
        assert(before.push(body[0]) =~= before + body);
    } else {
        let comma = choose|comma: int| #[trigger]
            has_mark(tokens, comma, Mark::Comma) && is_literal(tokens, from, comma, body[0])
                && is_body(tokens, comma + 1, to, body.skip(1));
        law_literals(tokens, from, comma, body[0]);
        assert(is_literal(tokens, from, comma, body[0]));
        lemma_atom_length(tokens, from, comma, body[0]);
        lemma_body(tokens, comma + 1, to, before.push(body[0]), body.skip(1));
        assert(before.push(body[0]) + body.skip(1) =~= before + body);
    }
}

proof fn lemma_atom_length(tokens: Seq<TokenView>, from: int, to: int, literal: LiteralView)
    requires
        is_literal(tokens, from, to, literal),
    ensures
        from < to <= tokens.len(),
{
}

proof fn lemma_body_read(tokens: Seq<TokenView>, from: int, before: Seq<LiteralView>) -> (body: Seq<
    LiteralView,
>)
    requires
        0 <= from,
        parser::read_body(tokens, from, before).0 is Ok,
    ensures
        is_body(tokens, from, parser::read_body(tokens, from, before).1, body),
        parser::read_body(tokens, from, before).0->Ok_0 == before + body,
    decreases tokens.len() - from,
{
    let (read, next) = parser::read_literal(tokens, from);
    let first = read->Ok_0;
    law_literals(tokens, from, next, first);
    lemma_atom_length(tokens, from, next, first);
    if parser::at_mark(tokens, next, Mark::Comma) {
        let rest = lemma_body_read(tokens, next + 1, before.push(first));
        let body = seq![first] + rest;
        assert(before.push(first) + rest =~= before + body);
        assert(body.skip(1) =~= rest);
        assert(rest.len() > 0);
        assert(has_mark(tokens, next, Mark::Comma));
        body
    } else {
        let body = seq![first];
        assert(before.push(first) =~= before + body);
        body
    }
}

/// A rule is read exactly from the tokens that make it.
pub proof fn law_rules(tokens: Seq<TokenView>, from: int, to: int, rule: RuleView)
    requires
        0 <= from,
    ensures
        is_rule(tokens, from, to, rule) <==> parser::read_rule(tokens, from) == (
            Ok::<RuleView, DiagnosticView>(rule),
            to,
        ),
{
    let none = Seq::<LiteralView>::empty();
    lemma_covers(rule.span, rule.head.span, tokens[to - 1].span);
    if is_rule(tokens, from, to, rule) {
        if rule.body.len() == 0 {
            law_atoms(tokens, from, to - 1, rule.head);
            assert(rule.body =~= none);
        } else {
            let neck = choose|neck: int| #[trigger]
                has_mark(tokens, neck, Mark::ColonDash) && is_atom(tokens, from, neck, rule.head)
                    && is_body(tokens, neck + 1, to - 1, rule.body);
            law_atoms(tokens, from, neck, rule.head);
            assert(parser::at_mark(tokens, neck, Mark::ColonDash));
            lemma_body(tokens, neck + 1, to - 1, none, rule.body);
            assert(none + rule.body =~= rule.body);
        }
    }
    if parser::read_rule(tokens, from) == (Ok::<RuleView, DiagnosticView>(rule), to) {
        let (head, neck) = parser::read_atom(tokens, from);
        law_atoms(tokens, from, neck, rule.head);
        if parser::at_mark(tokens, neck, Mark::ColonDash) {
            let body = lemma_body_read(tokens, neck + 1, none);
            assert(none + body =~= body);
            assert(has_mark(tokens, neck, Mark::ColonDash));
        } else {
        }
    }
}

proof fn lemma_attributes(tokens: Seq<TokenView>, from: int, to: int, before: nat, count: int)
    requires
        0 <= from,
        is_attributes(tokens, from, to, count),
        !has_mark(tokens, to, Mark::Comma),
    ensures
        parser::read_attributes(tokens, from, before) == (
            Ok::<nat, DiagnosticView>((before + count) as nat),
            to,
        ),
    decreases count,
{
    assert(is_attribute(tokens, from, 0, count));
    if count > 1 {
        assert forall|i: int| 0 <= i < count - 1 implies #[trigger] is_attribute(
            tokens,
            from + 4,
            i,
            count - 1,
        ) by {
            assert(is_attribute(tokens, from, i + 1, count));
        }
        lemma_attributes(tokens, from + 4, to, before + 1, count - 1);
    }
}

proof fn lemma_attributes_read(tokens: Seq<TokenView>, from: int, before: nat) -> (count: int)
    requires
        0 <= from,
        parser::read_attributes(tokens, from, before).0 is Ok,
    ensures
        is_attributes(tokens, from, parser::read_attributes(tokens, from, before).1, count),
        count <= tokens.len() - from,
        parser::read_attributes(tokens, from, before).0->Ok_0 == before + count,
    decreases tokens.len() - from,
{
    if parser::at_mark(tokens, from + 3, Mark::Comma) {
        let rest = lemma_attributes_read(tokens, from + 4, before + 1);
        let count = rest + 1;
        assert forall|i: int| 0 <= i < count implies #[trigger] is_attribute(
            tokens,
            from,
            i,
            count,
        ) by {
            if i > 0 {
                assert(is_attribute(tokens, from + 4, i - 1, rest));
            }
        }
        count
    } else {
        assert(is_attribute(tokens, from, 0, 1));
        1
    }
}

proof fn lemma_end(tokens: Seq<TokenView>, to: int, end: int)
    requires
        0 <= to,
    ensures
        is_end(tokens, to, end) <==> end == parser::after_dot(tokens, to),
{
}

/// A declaration is read exactly from the tokens that make it, and from a dot behind them that
/// starts no directive.
pub proof fn law_declarations(
    tokens: Seq<TokenView>,
    from: int,
    end: int,
    declaration: DeclarationView,
)
    requires
        0 <= from,
        tokens.len() <= usize::MAX,
    ensures
        (exists|to: int| #[trigger]
            is_declaration(tokens, from, to, declaration) && is_end(tokens, to, end))
            <==> parser::read_directive(tokens, from) == (
            Ok::<DirectiveView, DiagnosticView>(DirectiveView::Declaration(declaration)),
            end,
        ),
{
    reveal_strlit("decl");
    reveal_strlit("input");
    reveal_strlit("output");
    assert("decl"@.len() == 4 && "input"@.len() == 5 && "output"@.len() == 6);
    if exists|to: int| #[trigger]
        is_declaration(tokens, from, to, declaration) && is_end(tokens, to, end) {
        let to = choose|to: int| #[trigger]
            is_declaration(tokens, from, to, declaration) && is_end(tokens, to, end);
        lemma_end(tokens, to, end);
        if declaration.arity != 0 {
            assert(is_attribute(tokens, from + 4, 0, declaration.arity as int));
            lemma_attributes(tokens, from + 4, to - 1, 0, declaration.arity as int);
        }
    }
    if parser::read_directive(tokens, from) == (
        Ok::<DirectiveView, DiagnosticView>(DirectiveView::Declaration(declaration)),
        end,
    ) {
        let to = parser::read_declaration(tokens, from + 2).1;
        if !parser::at_mark(tokens, from + 4, Mark::RightParen) {
            let count = lemma_attributes_read(tokens, from + 4, 0);
        }
        assert(is_declaration(tokens, from, to, declaration));
        lemma_end(tokens, to, end);
    }
}

/// The directives about a name are read exactly from a dot, their word, the name, and a dot behind
/// them that starts no directive.
pub proof fn law_name_directives(
    tokens: Seq<TokenView>,
    from: int,
    end: int,
    name: (Seq<char>, Span),
)
    requires
        0 <= from,
    ensures
        is_word(tokens, from, "input"@) && is_named(tokens, from + 2, name) && is_end(
            tokens,
            from + 3,
            end,
        ) <==> parser::read_directive(tokens, from) == (
            Ok::<DirectiveView, DiagnosticView>(DirectiveView::Input(name)),
            end,
        ),
        is_word(tokens, from, "output"@) && is_named(tokens, from + 2, name) && is_end(
            tokens,
            from + 3,
            end,
        ) <==> parser::read_directive(tokens, from) == (
            Ok::<DirectiveView, DiagnosticView>(DirectiveView::Output(name)),
            end,
        ),
{
    reveal_strlit("decl");
    reveal_strlit("input");
    reveal_strlit("output");
    assert("decl"@.len() == 4 && "input"@.len() == 5 && "output"@.len() == 6);
    lemma_end(tokens, from + 3, end);
}

proof fn lemma_next(tokens: Seq<TokenView>, from: int, to: int, rule: RuleView)
    requires
        0 <= from,
        is_rule(tokens, from, to, rule),
    ensures
        from < to <= tokens.len(),
        !has_mark(tokens, from, Mark::Dot),
{
    if rule.body.len() != 0 {
        let neck = choose|neck: int| #[trigger]
            has_mark(tokens, neck, Mark::ColonDash) && is_atom(tokens, from, neck, rule.head)
                && is_body(tokens, neck + 1, to - 1, rule.body);
        lemma_body_length(tokens, neck + 1, to - 1, rule.body);
    }
}

proof fn lemma_body_length(tokens: Seq<TokenView>, from: int, to: int, body: Seq<LiteralView>)
    requires
        is_body(tokens, from, to, body),
    ensures
        from < to,
    decreases body.len(),
{
    if body.len() > 1 {
        let comma = choose|comma: int| #[trigger]
            has_mark(tokens, comma, Mark::Comma) && is_literal(tokens, from, comma, body[0])
                && is_body(tokens, comma + 1, to, body.skip(1));
        lemma_atom_length(tokens, from, comma, body[0]);
        lemma_body_length(tokens, comma + 1, to, body.skip(1));
    } else {
        lemma_atom_length(tokens, from, to, body[0]);
    }
}

/// Reading a text goes on behind each of its statements, with the statement at the end of the
/// program, and no more problems; and it ends with the text.
pub proof fn law_statements(tokens: Seq<TokenView>, from: int, program: ProgramView)
    requires
        0 <= from <= tokens.len() <= usize::MAX,
    ensures
        from == tokens.len() ==> parser::read_statements(tokens, from, program) == (
            program,
            Seq::<DiagnosticView>::empty(),
        ),
        forall|to: int, rule: RuleView| #[trigger]
            is_rule(tokens, from, to, rule) ==> parser::read_statements(tokens, from, program)
                == parser::read_statements(
                tokens,
                to,
                ProgramView { rules: program.rules.push(rule), ..program },
            ),
        forall|to: int, end: int, declaration: DeclarationView| #[trigger]
            is_declaration(tokens, from, to, declaration) && #[trigger] is_end(tokens, to, end)
                ==> parser::read_statements(tokens, from, program) == parser::read_statements(
                tokens,
                end,
                ProgramView { declarations: program.declarations.push(declaration), ..program },
            ),
        forall|end: int, name: (Seq<char>, Span)|
            is_word(tokens, from, "input"@) && #[trigger] is_named(tokens, from + 2, name)
                && #[trigger] is_end(tokens, from + 3, end) ==> parser::read_statements(
                tokens,
                from,
                program,
            ) == parser::read_statements(
                tokens,
                end,
                ProgramView { inputs: program.inputs.push(name), ..program },
            ),
        forall|end: int, name: (Seq<char>, Span)|
            is_word(tokens, from, "output"@) && #[trigger] is_named(tokens, from + 2, name)
                && #[trigger] is_end(tokens, from + 3, end) ==> parser::read_statements(
                tokens,
                from,
                program,
            ) == parser::read_statements(
                tokens,
                end,
                ProgramView { outputs: program.outputs.push(name), ..program },
            ),
{
    let none = Seq::<DiagnosticView>::empty();
    assert forall|to: int, rule: RuleView| #[trigger]
        is_rule(tokens, from, to, rule) implies parser::read_statements(tokens, from, program)
        == parser::read_statements(
        tokens,
        to,
        ProgramView { rules: program.rules.push(rule), ..program },
    ) by {
        law_rules(tokens, from, to, rule);
        lemma_next(tokens, from, to, rule);
        let rest = parser::read_statements(
            tokens,
            to,
            ProgramView { rules: program.rules.push(rule), ..program },
        );
        assert(none + rest.1 =~= rest.1);
    }
    assert forall|to: int, end: int, declaration: DeclarationView| #[trigger]
        is_declaration(tokens, from, to, declaration) && #[trigger] is_end(
            tokens,
            to,
            end,
        ) implies parser::read_statements(tokens, from, program) == parser::read_statements(
        tokens,
        end,
        ProgramView { declarations: program.declarations.push(declaration), ..program },
    ) by {
        law_declarations(tokens, from, end, declaration);
        let rest = parser::read_statements(
            tokens,
            end,
            ProgramView { declarations: program.declarations.push(declaration), ..program },
        );
        assert(none + rest.1 =~= rest.1);
        assert(from < to <= end <= tokens.len());
    }
    assert forall|end: int, name: (Seq<char>, Span)|
        is_word(tokens, from, "input"@) && #[trigger] is_named(tokens, from + 2, name)
            && #[trigger] is_end(tokens, from + 3, end) implies parser::read_statements(
        tokens,
        from,
        program,
    ) == parser::read_statements(
        tokens,
        end,
        ProgramView { inputs: program.inputs.push(name), ..program },
    ) by {
        law_name_directives(tokens, from, end, name);
        let rest = parser::read_statements(
            tokens,
            end,
            ProgramView { inputs: program.inputs.push(name), ..program },
        );
        assert(none + rest.1 =~= rest.1);
    }
    assert forall|end: int, name: (Seq<char>, Span)|
        is_word(tokens, from, "output"@) && #[trigger] is_named(tokens, from + 2, name)
            && #[trigger] is_end(tokens, from + 3, end) implies parser::read_statements(
        tokens,
        from,
        program,
    ) == parser::read_statements(
        tokens,
        end,
        ProgramView { outputs: program.outputs.push(name), ..program },
    ) by {
        law_name_directives(tokens, from, end, name);
        let rest = parser::read_statements(
            tokens,
            end,
            ProgramView { outputs: program.outputs.push(name), ..program },
        );
        assert(none + rest.1 =~= rest.1);
    }
}

/// The program of a text is what its tokens spell from the first on, and the problems of its tokens
/// come before those of its statements.
pub proof fn law_parsed_text(text: Seq<char>)
    ensures
        ({
            let (tokens, problems) = lexer::lex_from(text, 0);
            let nothing = ProgramView {
                rules: Seq::empty(),
                declarations: Seq::empty(),
                inputs: Seq::empty(),
                outputs: Seq::empty(),
            };
            let (program, more) = parser::read_statements(tokens, 0, nothing);
            &&& parser::parsed(text).program == program
            &&& parser::parsed(text).diagnostics == problems + more
        }),
{
}

/// A problem at a position, or at the end of the text if there is no token, and the position from
/// which to go on.
pub open spec fn stop_at(tokens: Seq<TokenView>, at: int, message: Seq<char>) -> (
    DiagnosticView,
    int,
) {
    if at < tokens.len() {
        (DiagnosticView { message, span: tokens[at].span }, at + 1)
    } else if tokens.len() > 0 {
        let end = tokens[tokens.len() - 1].span.end;
        (DiagnosticView { message, span: Span { start: end, end } }, at)
    } else {
        (DiagnosticView { message, span: Span { start: 0, end: 0 } }, at)
    }
}

/// Whether a term stands at a position.
pub open spec fn has_term(tokens: Seq<TokenView>, at: int) -> bool {
    &&& 0 <= at < tokens.len()
    &&& tokens[at].kind is Ident || tokens[at].kind is Symbol || tokens[at].kind is String
        || tokens[at].kind is Number
}

proof fn lemma_terms_go_on(
    tokens: Seq<TokenView>,
    from: int,
    to: int,
    before: Seq<(TermView, Span)>,
    terms: Seq<(TermView, Span)>,
)
    requires
        is_terms(tokens, from, to, terms),
        has_mark(tokens, to, Mark::Comma),
    ensures
        parser::read_terms(tokens, from, before) == parser::read_terms(
            tokens,
            to + 1,
            before + terms,
        ),
    decreases terms.len(),
{
    assert(is_term(tokens[from + 2 * 0], terms[0]));
    assert(parser::read_term(tokens, from).0 == Ok::<(TermView, Span), DiagnosticView>(terms[0]));
    if terms.len() == 1 {
        assert(before.push(terms[0]) =~= before + terms);
    } else {
        let rest = terms.skip(1);
        assert forall|i: int| 0 <= i < rest.len() implies is_term(
            tokens[from + 2 + 2 * i],
            #[trigger] rest[i],
        ) && (i < rest.len() - 1 ==> tokens[from + 2 + 2 * i + 1].kind == TokenKindView::Mark(
            Mark::Comma,
        )) by {
            assert(is_term(tokens[from + 2 * (i + 1)], terms[i + 1]));
        }
        lemma_terms_go_on(tokens, from + 2, to, before.push(terms[0]), rest);
        assert(before.push(terms[0]) + rest =~= before + terms);
    }
}

/// Where reading an atom stops, and what it says there.
pub proof fn law_atom_errors(
    tokens: Seq<TokenView>,
    from: int,
    to: int,
    terms: Seq<(TermView, Span)>,
)
    requires
        0 <= from <= tokens.len(),
    ensures
        ({
            let (read, next) = parser::read_atom(tokens, from);
            let open = has_name(tokens, from) && has_mark(tokens, from + 1, Mark::LeftParen);
            let listed = is_terms(tokens, from + 2, to, terms);
            &&& !has_name(tokens, from) ==> read is Err && (read->Err_0, next) == stop_at(
                tokens,
                from,
                "expected a predicate name"@,
            )
            &&& has_name(tokens, from) && !has_mark(tokens, from + 1, Mark::LeftParen) ==> read
                is Err && (read->Err_0, next) == stop_at(
                tokens,
                from + 1,
                "expected `(` after predicate name"@,
            )
            &&& open && !has_term(tokens, from + 2) && !has_mark(
                tokens,
                from + 2,
                Mark::RightParen,
            ) ==> read is Err && (read->Err_0, next) == stop_at(
                tokens,
                from + 2,
                "expected a variable or constant"@,
            )
            &&& open && listed && has_mark(tokens, to, Mark::Comma) && !has_term(tokens, to + 1)
                ==> read is Err && (read->Err_0, next) == stop_at(
                tokens,
                to + 1,
                "expected a variable or constant"@,
            )
            &&& open && listed && !has_mark(tokens, to, Mark::Comma) && !has_mark(
                tokens,
                to,
                Mark::RightParen,
            ) ==> read is Err && (read->Err_0, next) == stop_at(
                tokens,
                to,
                "expected `)` after atom"@,
            )
        }),
{
    let none = Seq::<(TermView, Span)>::empty();
    if has_name(tokens, from) && has_mark(tokens, from + 1, Mark::LeftParen) && is_terms(
        tokens,
        from + 2,
        to,
        terms,
    ) {
        assert(is_term(tokens[from + 2 + 2 * 0], terms[0]));
        if has_mark(tokens, to, Mark::Comma) {
            lemma_terms_go_on(tokens, from + 2, to, none, terms);
        } else {
            lemma_terms(tokens, from + 2, to, none, terms);
        }
    }
}

proof fn lemma_body_goes_on(
    tokens: Seq<TokenView>,
    from: int,
    to: int,
    before: Seq<LiteralView>,
    body: Seq<LiteralView>,
)
    requires
        0 <= from,
        is_body(tokens, from, to, body),
        has_mark(tokens, to, Mark::Comma),
    ensures
        parser::read_body(tokens, from, before) == parser::read_body(
            tokens,
            to + 1,
            before + body,
        ),
    decreases body.len(),
{
    if body.len() == 1 {
        law_literals(tokens, from, to, body[0]);
        lemma_atom_length(tokens, from, to, body[0]);
        assert(before.push(body[0]) =~= before + body);
    } else {
        let comma = choose|comma: int| #[trigger]
            has_mark(tokens, comma, Mark::Comma) && is_literal(tokens, from, comma, body[0])
                && is_body(tokens, comma + 1, to, body.skip(1));
        law_literals(tokens, from, comma, body[0]);
        lemma_atom_length(tokens, from, comma, body[0]);
        lemma_body_goes_on(tokens, comma + 1, to, before.push(body[0]), body.skip(1));
        assert(before.push(body[0]) + body.skip(1) =~= before + body);
    }
}

/// Where reading a rule stops: where reading its head or one of its literals does, or where a dot is
/// missing.
pub proof fn law_rule_errors(
    tokens: Seq<TokenView>,
    from: int,
    neck: int,
    to: int,
    head: AtomView,
    body: Seq<LiteralView>,
)
    requires
        0 <= from <= tokens.len(),
    ensures
        ({
            let (read, next) = parser::read_rule(tokens, from);
            let headed = is_atom(tokens, from, neck, head);
            let necked = headed && has_mark(tokens, neck, Mark::ColonDash);
            let listed = is_body(tokens, neck + 1, to, body);
            &&& parser::read_atom(tokens, from).0 matches Err(error) ==> read
                == Err::<RuleView, DiagnosticView>(error) && next == parser::read_atom(
                tokens,
                from,
            ).1
            &&& headed && !has_mark(tokens, neck, Mark::ColonDash) && !has_mark(
                tokens,
                neck,
                Mark::Dot,
            ) ==> read is Err && (read->Err_0, next) == stop_at(
                tokens,
                neck,
                "expected `.` after rule"@,
            )
            &&& necked && parser::read_literal(tokens, neck + 1).0 is Err ==> read is Err && (
                read->Err_0,
                next,
            ) == (
                parser::read_literal(tokens, neck + 1).0->Err_0,
                parser::read_literal(tokens, neck + 1).1,
            )
            &&& necked && listed && has_mark(tokens, to, Mark::Comma) && parser::read_literal(
                tokens,
                to + 1,
            ).0 is Err ==> read is Err && (read->Err_0, next) == (
                parser::read_literal(tokens, to + 1).0->Err_0,
                parser::read_literal(tokens, to + 1).1,
            )
            &&& necked && listed && !has_mark(tokens, to, Mark::Comma) && !has_mark(
                tokens,
                to,
                Mark::Dot,
            ) ==> read is Err && (read->Err_0, next) == stop_at(
                tokens,
                to,
                "expected `.` after rule"@,
            )
        }),
        ({
            let start = if has_mark(tokens, from, Mark::Bang) {
                from + 1
            } else {
                from
            };
            parser::read_atom(tokens, start).0 is Err ==> parser::read_literal(tokens, from) == (
                Err::<LiteralView, DiagnosticView>(parser::read_atom(tokens, start).0->Err_0),
                parser::read_atom(tokens, start).1,
            )
        }),
{
    let none = Seq::<LiteralView>::empty();
    if is_atom(tokens, from, neck, head) {
        law_atoms(tokens, from, neck, head);
        if has_mark(tokens, neck, Mark::ColonDash) && is_body(tokens, neck + 1, to, body) {
            if has_mark(tokens, to, Mark::Comma) {
                lemma_body_goes_on(tokens, neck + 1, to, none, body);
            } else {
                lemma_body(tokens, neck + 1, to, none, body);
                lemma_body_length(tokens, neck + 1, to, body);
            }
        }
    }
}

/// Where reading a directive stops, and what it says there.
pub proof fn law_directive_errors(tokens: Seq<TokenView>, from: int)
    requires
        0 <= from,
        has_mark(tokens, from, Mark::Dot),
    ensures
        ({
            let (read, next) = parser::read_directive(tokens, from);
            &&& !has_name(tokens, from + 1) ==> read is Err && (read->Err_0, next) == stop_at(
                tokens,
                from + 1,
                "expected `output` after `.`"@,
            )
            &&& forall|word: Seq<char>| #[trigger]
                is_word(tokens, from, word) && word != "decl"@ && word != "input"@ && word
                    != "output"@ ==> read == Err::<DirectiveView, DiagnosticView>(
                    DiagnosticView {
                        message: "unknown directive ."@ + word,
                        span: tokens[from + 1].span,
                    },
                ) && next == from + 2
            &&& is_word(tokens, from, "output"@) && !has_name(tokens, from + 2) ==> read is Err && (
                read->Err_0,
                next,
            ) == stop_at(tokens, from + 2, "expected predicate name after `.output`"@)
            &&& is_word(tokens, from, "input"@) && !has_name(tokens, from + 2) ==> read is Err && (
                read->Err_0,
                next,
            ) == stop_at(tokens, from + 2, "expected predicate name after `.input`"@)
            &&& is_word(tokens, from, "decl"@) ==> {
                let named = has_name(tokens, from + 2);
                let open = named && has_mark(tokens, from + 3, Mark::LeftParen);
                &&& !named ==> read is Err && (read->Err_0, next) == stop_at(
                    tokens,
                    from + 2,
                    "expected predicate name after `.decl`"@,
                )
                &&& named && !open ==> read is Err && (read->Err_0, next) == stop_at(
                    tokens,
                    from + 3,
                    "expected `(` after predicate name"@,
                )
            }
        }),
{
    reveal_strlit("decl");
    reveal_strlit("input");
    reveal_strlit("output");
    assert("decl"@.len() == 4 && "input"@.len() == 5 && "output"@.len() == 6);
}

proof fn lemma_attributes_go_on(
    tokens: Seq<TokenView>,
    from: int,
    to: int,
    before: nat,
    count: int,
)
    requires
        0 <= from,
        is_attributes(tokens, from, to, count),
        has_mark(tokens, to, Mark::Comma),
    ensures
        parser::read_attributes(tokens, from, before) == parser::read_attributes(
            tokens,
            to + 1,
            (before + count) as nat,
        ),
    decreases count,
{
    assert(is_attribute(tokens, from, 0, count));
    if count > 1 {
        assert forall|i: int| 0 <= i < count - 1 implies #[trigger] is_attribute(
            tokens,
            from + 4,
            i,
            count - 1,
        ) by {
            assert(is_attribute(tokens, from, i + 1, count));
        }
        lemma_attributes_go_on(tokens, from + 4, to, before + 1, count - 1);
    }
}

/// Where reading the attributes of a declaration stops, and what it says there: at the first
/// attribute, or at the one behind some attributes and a comma.
pub proof fn law_attribute_errors(tokens: Seq<TokenView>, from: int, to: int, count: int)
    requires
        0 <= from,
        is_word(tokens, from, "decl"@),
        has_name(tokens, from + 2),
        has_mark(tokens, from + 3, Mark::LeftParen),
        count == 0 && to == from + 3 && !has_mark(tokens, from + 4, Mark::RightParen) || (
        is_attributes(tokens, from + 4, to, count) && !has_mark(tokens, to, Mark::RightParen)),
    ensures
        ({
            let (read, next) = parser::read_directive(tokens, from);
            let goes_on = count == 0 || has_mark(tokens, to, Mark::Comma);
            let named = has_name(tokens, to + 1);
            let split = named && has_mark(tokens, to + 2, Mark::Colon);
            &&& goes_on && !named ==> read is Err && (read->Err_0, next) == stop_at(
                tokens,
                to + 1,
                "expected an attribute name"@,
            )
            &&& goes_on && named && !split ==> read is Err && (read->Err_0, next) == stop_at(
                tokens,
                to + 2,
                "expected `:` after attribute name"@,
            )
            &&& goes_on && split && !has_name(tokens, to + 3) ==> read is Err && (
                read->Err_0,
                next,
            ) == stop_at(tokens, to + 3, "expected an attribute type"@)
            &&& !goes_on ==> read is Err && (read->Err_0, next) == stop_at(
                tokens,
                to,
                "expected `)` after attributes"@,
            )
        }),
{
    reveal_strlit("decl");
    reveal_strlit("input");
    reveal_strlit("output");
    assert("decl"@.len() == 4 && "input"@.len() == 5 && "output"@.len() == 6);
    if count > 0 {
        assert(is_attribute(tokens, from + 4, 0, count));
        if has_mark(tokens, to, Mark::Comma) {
            lemma_attributes_go_on(tokens, from + 4, to, 0, count);
        } else {
            lemma_attributes(tokens, from + 4, to, 0, count);
        }
    }
}

proof fn lemma_resume(tokens: Seq<TokenView>, from: int, dot: int)
    requires
        0 <= from <= dot,
        dot < tokens.len() ==> has_mark(tokens, dot, Mark::Dot),
        dot <= tokens.len(),
        forall|k: int| from <= k < dot ==> (#[trigger] tokens[k]).kind != TokenKindView::Mark(Mark::Dot),
    ensures
        parser::resume_at(tokens, from) == if dot < tokens.len() {
            dot + 1
        } else {
            dot
        },
    decreases dot - from,
{
    if from < dot {
        assert(tokens[from].kind != TokenKindView::Mark(Mark::Dot));
        lemma_resume(tokens, from + 1, dot);
    }
}

/// A statement that cannot be read leaves the program as it is, adds its one problem, and reading
/// goes on behind the next dot, or ends with the text.
pub proof fn law_statement_errors(
    tokens: Seq<TokenView>,
    from: int,
    dot: int,
    program: ProgramView,
    error: DiagnosticView,
)
    requires
        0 <= from < tokens.len(),
        from < dot <= tokens.len(),
        ({
            let (failed, next) = if has_mark(tokens, from, Mark::Dot) {
                match parser::read_directive(tokens, from) {
                    (Err(found), next) => (found == error, next),
                    (Ok(_), next) => (false, next),
                }
            } else {
                match parser::read_rule(tokens, from) {
                    (Err(found), next) => (found == error, next),
                    (Ok(_), next) => (false, next),
                }
            };
            &&& failed
            &&& 0 <= next <= dot
            &&& dot < tokens.len() ==> has_mark(tokens, dot, Mark::Dot)
            &&& forall|k: int| next <= k < dot ==> (#[trigger] tokens[k]).kind != TokenKindView::Mark(Mark::Dot)
        }),
    ensures
        ({
            let on = if dot < tokens.len() {
                dot + 1
            } else {
                dot
            };
            let rest = parser::read_statements(tokens, on, program);
            parser::read_statements(tokens, from, program) == (rest.0, seq![error] + rest.1)
        }),
{
    let next = if has_mark(tokens, from, Mark::Dot) {
        parser::read_directive(tokens, from).1
    } else {
        parser::read_rule(tokens, from).1
    };
    lemma_resume(tokens, next, dot);
}

} // verus!
