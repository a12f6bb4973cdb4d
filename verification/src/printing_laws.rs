//! A program that is written is read back.
use vstd::prelude::*;

use crate::ast::{
    AtomView, ConstantView, DeclarationView, LiteralView, ProgramView, RuleView, Span, TermView,
};
use crate::lexer;
use crate::lexer::{DiagnosticView, Mark, StringTail, TokenKindView, TokenView};
use crate::parser;
use crate::printing;
use crate::text;

verus! {

/// Whether a text is the name of a predicate or a variable.
pub open spec fn is_name(name: Seq<char>) -> bool {
    &&& name.len() > 0
    &&& lexer::is_name_start(name[0])
    &&& all_name_parts(name)
}

pub open spec fn all_name_parts(name: Seq<char>) -> bool {
    forall|i: int| 0 <= i < name.len() ==> lexer::is_name_part(#[trigger] name[i])
}

/// Whether the names in a term are names.
pub open spec fn term_named(term: TermView) -> bool {
    match term {
        TermView::Variable(name) => is_name(name),
        TermView::Constant(ConstantView::Symbol(name)) => name.len() > 0 && all_name_parts(name),
        TermView::Constant(_) => true,
    }
}

pub open spec fn atom_named(atom: AtomView) -> bool {
    &&& is_name(atom.predicate.0)
    &&& forall|i: int| 0 <= i < atom.terms.len() ==> term_named((#[trigger] atom.terms[i]).0)
}

pub open spec fn rule_named(rule: RuleView) -> bool {
    &&& atom_named(rule.head)
    &&& forall|i: int| 0 <= i < rule.body.len() ==> atom_named((#[trigger] rule.body[i]).atom)
}

/// Whether the names in a program are names.
pub open spec fn program_named(program: ProgramView) -> bool {
    &&& forall|i: int| 0 <= i < program.rules.len() ==> rule_named(#[trigger] program.rules[i])
    &&& forall|i: int|
        0 <= i < program.declarations.len() ==> is_name(
            (#[trigger] program.declarations[i]).predicate.0,
        )
    &&& forall|i: int| 0 <= i < program.inputs.len() ==> is_name((#[trigger] program.inputs[i]).0)
    &&& forall|i: int|
        0 <= i < program.outputs.len() ==> is_name((#[trigger] program.outputs[i]).0)
}

/// Whether a text is read back from between its quotes.
pub open spec fn quotes_back(value: Seq<char>) -> bool {
    let written = text::quoted(value);
    &&& written.len() > 0
    &&& written[0] == '"'
    &&& lexer::string_tail(written, 1, Seq::empty()) == (StringTail {
        end: written.len() as int,
        value,
        closed: true,
        problems: Seq::empty(),
    })
}

pub open spec fn atom_quotes_back(atom: AtomView) -> bool {
    forall|i: int|
        0 <= i < atom.terms.len() ==> ((#[trigger] atom.terms[i]).0 matches TermView::Constant(
            ConstantView::String(value),
        ) ==> quotes_back(value))
}

pub open spec fn rule_quotes_back(rule: RuleView) -> bool {
    &&& atom_quotes_back(rule.head)
    &&& forall|i: int|
        0 <= i < rule.body.len() ==> atom_quotes_back((#[trigger] rule.body[i]).atom)
}

/// Whether every text in a program is read back from between its quotes.
pub open spec fn program_quotes_back(program: ProgramView) -> bool {
    forall|i: int| 0 <= i < program.rules.len() ==> rule_quotes_back(#[trigger] program.rules[i])
}

spec fn term_writable(term: TermView) -> bool {
    &&& term_named(term)
    &&& term matches TermView::Constant(ConstantView::String(value)) ==> quotes_back(value)
}

spec fn atom_writable(atom: AtomView) -> bool {
    atom_named(atom) && atom_quotes_back(atom)
}

spec fn rule_writable(rule: RuleView) -> bool {
    &&& atom_writable(rule.head)
    &&& forall|i: int| 0 <= i < rule.body.len() ==> atom_writable((#[trigger] rule.body[i]).atom)
}

/// Whether two atoms are the same but for where they stand.
pub open spec fn same_atom(a: AtomView, b: AtomView) -> bool {
    &&& a.predicate.0 == b.predicate.0
    &&& a.terms.len() == b.terms.len()
    &&& forall|i: int| 0 <= i < a.terms.len() ==> (#[trigger] a.terms[i]).0 == b.terms[i].0
}

pub open spec fn same_literal(a: LiteralView, b: LiteralView) -> bool {
    a.negated == b.negated && same_atom(a.atom, b.atom)
}

/// Whether two rules are the same but for where they stand.
pub open spec fn same_rule(a: RuleView, b: RuleView) -> bool {
    &&& same_atom(a.head, b.head)
    &&& a.body.len() == b.body.len()
    &&& forall|i: int| 0 <= i < a.body.len() ==> same_literal(#[trigger] a.body[i], b.body[i])
}

pub open spec fn same_names(a: Seq<(Seq<char>, Span)>, b: Seq<(Seq<char>, Span)>) -> bool {
    &&& a.len() == b.len()
    &&& forall|i: int| 0 <= i < a.len() ==> (#[trigger] a[i]).0 == b[i].0
}

/// Whether two programs are the same but for where their parts stand.
pub open spec fn same_program(a: ProgramView, b: ProgramView) -> bool {
    &&& a.rules.len() == b.rules.len()
    &&& forall|i: int| 0 <= i < a.rules.len() ==> same_rule(#[trigger] a.rules[i], b.rules[i])
    &&& a.declarations.len() == b.declarations.len()
    &&& forall|i: int|
        0 <= i < a.declarations.len() ==> {
            &&& (#[trigger] a.declarations[i]).predicate.0 == b.declarations[i].predicate.0
            &&& a.declarations[i].arity == b.declarations[i].arity
        }
    &&& same_names(a.inputs, b.inputs)
    &&& same_names(a.outputs, b.outputs)
}

type Kinds = Seq<TokenKindView>;

spec fn kinds(tokens: Seq<TokenView>) -> Kinds {
    Seq::new(tokens.len(), |i: int| tokens[i].kind)
}

/// Whether a text has a piece at a position.
spec fn has(text: Seq<char>, i: int, piece: Seq<char>) -> bool {
    &&& 0 <= i
    &&& i + piece.len() <= text.len()
    &&& forall|k: int| 0 <= k < piece.len() ==> text[i + k] == #[trigger] piece[k]
}

/// Whether no name goes on at a position.
spec fn is_free(text: Seq<char>, i: int) -> bool {
    i < text.len() ==> !lexer::is_name_part(text[i])
}

/// Whether the text between two positions gives tokens of some kinds, and no problem.
spec fn lexes(text: Seq<char>, i: int, j: int, found: Kinds) -> bool {
    &&& 0 <= i <= j <= text.len()
    &&& kinds(lexer::lex_from(text, i).0) == found + kinds(lexer::lex_from(text, j).0)
    &&& lexer::lex_from(text, i).1 == lexer::lex_from(text, j).1
}

proof fn lemma_has_split(text: Seq<char>, i: int, a: Seq<char>, b: Seq<char>)
    requires
        has(text, i, a + b),
    ensures
        has(text, i, a),
        has(text, i + a.len(), b),
{
    assert forall|k: int| 0 <= k < a.len() implies text[i + k] == #[trigger] a[k] by {
        assert((a + b)[k] == a[k]);
    }
    assert forall|k: int| 0 <= k < b.len() implies text[i + a.len() + k] == #[trigger] b[k] by {
        assert((a + b)[a.len() + k] == b[k]);
    }
}

proof fn lemma_lexes_chain(text: Seq<char>, i: int, j: int, k: int, a: Kinds, b: Kinds)
    requires
        lexes(text, i, j, a),
        lexes(text, j, k, b),
    ensures
        lexes(text, i, k, a + b),
{
    let rest = kinds(lexer::lex_from(text, k).0);
    assert(a + (b + rest) =~= (a + b) + rest);
}

/// One step of reading tokens.
proof fn lemma_lex_one(text: Seq<char>, i: int, next: int)
    requires
        0 <= i < next <= text.len(),
        lexer::lex_step(text, i).next == next,
        lexer::lex_step(text, i).problems.len() == 0,
    ensures
        lexes(text, i, next, kinds(lexer::lex_step(text, i).tokens)),
{
    let step = lexer::lex_step(text, i);
    let rest = lexer::lex_from(text, next);
    assert(kinds(step.tokens + rest.0) =~= kinds(step.tokens) + kinds(rest.0));
    assert(step.problems + rest.1 =~= rest.1);
}

proof fn lemma_lex_space(text: Seq<char>, i: int)
    requires
        0 <= i < text.len(),
        lexer::is_space(text[i]),
    ensures
        lexes(text, i, i + 1, Seq::empty()),
{
    lemma_lex_one(text, i, i + 1);
    assert(kinds(lexer::lex_step(text, i).tokens) =~= Seq::empty());
}

proof fn lemma_lex_mark(text: Seq<char>, i: int)
    requires
        0 <= i < text.len(),
        lexer::mark_of(text[i]) is Some,
    ensures
        lexes(text, i, i + 1, seq![TokenKindView::Mark(lexer::mark_of(text[i])->0)]),
{
    lemma_lex_one(text, i, i + 1);
    assert(kinds(lexer::lex_step(text, i).tokens) =~= seq![
        TokenKindView::Mark(lexer::mark_of(text[i])->0),
    ]);
}

proof fn lemma_lex_colon_dash(text: Seq<char>, i: int)
    requires
        0 <= i,
        i + 1 < text.len(),
        text[i] == ':',
        text[i + 1] == '-',
    ensures
        lexes(text, i, i + 2, seq![TokenKindView::Mark(Mark::ColonDash)]),
{
    lemma_lex_one(text, i, i + 2);
    assert(kinds(lexer::lex_step(text, i).tokens) =~= seq![TokenKindView::Mark(Mark::ColonDash)]);
}

proof fn lemma_lex_colon(text: Seq<char>, i: int)
    requires
        0 <= i,
        i + 1 < text.len(),
        text[i] == ':',
        text[i + 1] == ' ',
    ensures
        lexes(text, i, i + 1, seq![TokenKindView::Mark(Mark::Colon)]),
{
    lemma_lex_one(text, i, i + 1);
    assert(kinds(lexer::lex_step(text, i).tokens) =~= seq![TokenKindView::Mark(Mark::Colon)]);
}

proof fn lemma_name_end(text: Seq<char>, i: int, j: int)
    requires
        0 <= i <= j <= text.len(),
        forall|k: int| i <= k < j ==> lexer::is_name_part(#[trigger] text[k]),
        is_free(text, j),
    ensures
        lexer::name_end(text, i) == j,
    decreases j - i,
{
    if i < j {
        assert(lexer::is_name_part(text[i]));
        lemma_name_end(text, i + 1, j);
    }
}

proof fn lemma_digits_end(text: Seq<char>, i: int, j: int)
    requires
        0 <= i <= j <= text.len(),
        forall|k: int| i <= k < j ==> '0' <= (#[trigger] text[k]) <= '9',
        is_free(text, j),
    ensures
        lexer::digits_end(text, i) == j,
    decreases j - i,
{
    if i < j {
        assert('0' <= text[i] <= '9');
        lemma_digits_end(text, i + 1, j);
    }
}

proof fn lemma_lex_name(text: Seq<char>, i: int, name: Seq<char>)
    requires
        has(text, i, name),
        is_name(name),
        is_free(text, i + name.len()),
    ensures
        lexes(text, i, i + name.len(), seq![TokenKindView::Ident(name)]),
{
    let j = i + name.len();
    assert(text[i + 0] == name[0]);
    assert forall|k: int| i + 1 <= k < j implies lexer::is_name_part(#[trigger] text[k]) by {
        assert(text[i + (k - i)] == name[k - i]);
    }
    lemma_name_end(text, i + 1, j);
    assert(text.subrange(i, j) =~= name) by {
        assert forall|k: int| 0 <= k < name.len() implies text.subrange(i, j)[k] == #[trigger] name[k] by {}
    }
    lemma_lex_one(text, i, j);
    assert(kinds(lexer::lex_step(text, i).tokens) =~= seq![TokenKindView::Ident(name)]);
}

proof fn lemma_lex_symbol(text: Seq<char>, i: int, name: Seq<char>)
    requires
        has(text, i, seq!['\''] + name),
        name.len() > 0,
        all_name_parts(name),
        is_free(text, i + 1 + name.len()),
    ensures
        lexes(text, i, i + 1 + name.len(), seq![TokenKindView::Symbol(name)]),
{
    let j = i + 1 + name.len();
    lemma_has_split(text, i, seq!['\''], name);
    assert(text[i + 0] == seq!['\''][0]);
    assert forall|k: int| i + 1 <= k < j implies lexer::is_name_part(#[trigger] text[k]) by {
        assert(text[i + 1 + (k - i - 1)] == name[k - i - 1]);
    }
    lemma_name_end(text, i + 1, j);
    assert(text.subrange(i + 1, j) =~= name) by {
        assert forall|k: int| 0 <= k < name.len() implies text.subrange(i + 1, j)[k]
            == #[trigger] name[k] by {}
    }
    lemma_lex_one(text, i, j);
    assert(kinds(lexer::lex_step(text, i).tokens) =~= seq![TokenKindView::Symbol(name)]);
}

/// A number in decimal is a nonempty run of digits that denotes it.
proof fn lemma_decimal(n: nat)
    ensures
        text::decimal(n).len() > 0,
        text::all_digits(text::decimal(n)),
        text::numeral(text::decimal(n)) == n,
    decreases n,
{
    reveal_with_fuel(text::numeral, 2);
    let digits = text::decimal(n);
    if n >= 10 {
        lemma_decimal(n / 10);
        let earlier = text::decimal(n / 10);
        assert(digits.drop_last() =~= earlier);
        assert forall|i: int| 0 <= i < digits.len() implies text::is_digit(#[trigger] digits[i]) by {
            if i < earlier.len() {
                assert(digits[i] == earlier[i]);
            }
        }
    } else {
        assert(digits.drop_last() =~= Seq::empty());
    }
}

proof fn lemma_lex_number(text: Seq<char>, i: int, value: u32)
    requires
        has(text, i, text::decimal(value as nat)),
        is_free(text, i + text::decimal(value as nat).len()),
    ensures
        lexes(
            text,
            i,
            i + text::decimal(value as nat).len(),
            seq![TokenKindView::Number(value)],
        ),
{
    let digits = text::decimal(value as nat);
    let j = i + digits.len();
    lemma_decimal(value as nat);
    assert forall|k: int| i <= k < j implies '0' <= (#[trigger] text[k]) <= '9' by {
        assert(text[i + (k - i)] == digits[k - i]);
        assert(text::is_digit(digits[k - i]));
    }
    lemma_digits_end(text, i + 1, j);
    assert(text.subrange(i, j) =~= digits) by {
        assert forall|k: int| 0 <= k < digits.len() implies text.subrange(i, j)[k]
            == #[trigger] digits[k] by {}
    }
    assert(text::is_digit(digits[0]));
    assert(text::without_plus(digits) =~= digits);
    lemma_lex_one(text, i, j);
    assert(kinds(lexer::lex_step(text, i).tokens) =~= seq![TokenKindView::Number(value)]);
}

/// The characters of the texts between the parts of a program.
proof fn lemma_marks()
    ensures
        "("@ == seq!['('],
        ")"@ == seq![')'],
        ", "@ == seq![',', ' '],
        "."@ == seq!['.'],
        "!"@ == seq!['!'],
        "'"@ == seq!['\''],
        "\n"@ == seq!['\n'],
        "x"@ == seq!['x'],
        " :- "@ == seq![' ', ':', '-', ' '],
        ": any"@ == seq![':', ' '] + "any"@,
        ".decl "@ == seq!['.'] + "decl"@ + seq![' '],
        ".input "@ == seq!['.'] + "input"@ + seq![' '],
        ".output "@ == seq!['.'] + "output"@ + seq![' '],
        is_name("any"@),
        is_name("decl"@),
        is_name("input"@),
        is_name("output"@),
        "decl"@ != "input"@,
        "decl"@ != "output"@,
        "input"@ != "output"@,
{
    reveal_strlit("(");
    reveal_strlit(")");
    reveal_strlit(", ");
    reveal_strlit(".");
    reveal_strlit("!");
    reveal_strlit("'");
    reveal_strlit("\n");
    reveal_strlit("x");
    reveal_strlit(" :- ");
    reveal_strlit(": any");
    reveal_strlit("any");
    reveal_strlit(".decl ");
    reveal_strlit("decl");
    reveal_strlit(".input ");
    reveal_strlit("input");
    reveal_strlit(".output ");
    reveal_strlit("output");
    assert("("@ =~= seq!['(']);
    assert(")"@ =~= seq![')']);
    assert(", "@ =~= seq![',', ' ']);
    assert("."@ =~= seq!['.']);
    assert("!"@ =~= seq!['!']);
    assert("'"@ =~= seq!['\'']);
    assert("\n"@ =~= seq!['\n']);
    assert("x"@ =~= seq!['x']);
    assert(" :- "@ =~= seq![' ', ':', '-', ' ']);
    assert(": any"@ =~= seq![':', ' '] + "any"@);
    assert(".decl "@ =~= seq!['.'] + "decl"@ + seq![' ']);
    assert(".input "@ =~= seq!['.'] + "input"@ + seq![' ']);
    assert(".output "@ =~= seq!['.'] + "output"@ + seq![' ']);
    assert("decl"@.len() == 4);
    assert("input"@.len() == 5);
    assert("output"@.len() == 6);
}

/// The kind of the token that a term is written as.
spec fn term_kind(term: TermView) -> TokenKindView {
    match term {
        TermView::Variable(name) => TokenKindView::Ident(name),
        TermView::Constant(ConstantView::U32(value)) => TokenKindView::Number(value),
        TermView::Constant(ConstantView::Symbol(name)) => TokenKindView::Symbol(name),
        TermView::Constant(ConstantView::String(value)) => TokenKindView::String(value),
    }
}

/// Texts from one on, with commas between them.
spec fn listed_from(texts: Seq<Seq<char>>, k: int) -> Seq<char>
    decreases texts.len() - k,
{
    if k < 0 || k >= texts.len() {
        Seq::empty()
    } else if k + 1 == texts.len() {
        texts[k]
    } else {
        texts[k] + ", "@ + listed_from(texts, k + 1)
    }
}

/// Kinds of tokens from one list on, with commas between them.
spec fn commas_from(items: Seq<Kinds>, k: int) -> Kinds
    decreases items.len() - k,
{
    if k < 0 || k >= items.len() {
        Seq::empty()
    } else if k + 1 == items.len() {
        items[k]
    } else {
        items[k] + seq![TokenKindView::Mark(Mark::Comma)] + commas_from(items, k + 1)
    }
}

proof fn lemma_joined_is_listed(texts: Seq<Seq<char>>, k: int)
    requires
        0 <= k < texts.len(),
    ensures
        text::joined(texts, ", "@) == text::joined(texts.take(k), ", "@) + (if k == 0 {
            Seq::empty()
        } else {
            ", "@
        }) + listed_from(texts, k),
    decreases texts.len() - k,
{
    let first = texts.take(k);
    let more = texts.take(k + 1);
    assert(more.drop_last() =~= first);
    assert(more.last() == texts[k]);
    if k == 0 {
        assert(first =~= Seq::empty());
        assert(text::joined(more, ", "@) =~= texts[0]);
    }
    if k + 1 == texts.len() {
        assert(more =~= texts);
        assert(text::joined(texts, ", "@) =~= text::joined(first, ", "@) + (if k == 0 {
            Seq::empty()
        } else {
            ", "@
        }) + listed_from(texts, k));
    } else {
        lemma_joined_is_listed(texts, k + 1);
        assert(text::joined(texts, ", "@) =~= text::joined(first, ", "@) + (if k == 0 {
            Seq::empty()
        } else {
            ", "@
        }) + listed_from(texts, k));
    }
}

/// Whether a piece gives tokens of some kinds wherever it stands before something that is no name.
spec fn reads_as(text: Seq<char>, piece: Seq<char>, found: Kinds) -> bool {
    forall|p: int| #[trigger]
        has(text, p, piece) && is_free(text, p + piece.len()) ==> lexes(
            text,
            p,
            p + piece.len(),
            found,
        )
}

proof fn lemma_lex_listed(
    text: Seq<char>,
    i: int,
    texts: Seq<Seq<char>>,
    items: Seq<Kinds>,
    k: int,
)
    requires
        0 <= k < texts.len(),
        texts.len() == items.len(),
        has(text, i, listed_from(texts, k)),
        is_free(text, i + listed_from(texts, k).len()),
        forall|m: int| 0 <= m < texts.len() ==> reads_as(text, #[trigger] texts[m], items[m]),
    ensures
        lexes(text, i, i + listed_from(texts, k).len(), commas_from(items, k)),
    decreases texts.len() - k,
{
    let own = texts[k];
    assert(reads_as(text, texts[k], items[k]));
    if k + 1 == texts.len() {
        assert(has(text, i, own));
    } else {
        let rest = listed_from(texts, k + 1);
        lemma_marks();
        lemma_has_split(text, i, own + ", "@, rest);
        lemma_has_split(text, i, own, ", "@);
        let c = i + own.len();
        assert(text[c + 0] == ", "@[0]);
        assert(text[c + 1] == ", "@[1]);
        assert(has(text, i, own));
        assert(lexes(text, i, c, items[k]));
        lemma_lex_mark(text, c);
        lemma_lex_space(text, c + 1);
        let comma = seq![TokenKindView::Mark(Mark::Comma)];
        lemma_lexes_chain(text, c, c + 1, c + 2, comma, Seq::empty());
        assert(comma + Seq::<TokenKindView>::empty() =~= comma);
        lemma_lexes_chain(text, i, c, c + 2, items[k], comma);
        lemma_lex_listed(text, c + 2, texts, items, k + 1);
        lemma_lexes_chain(
            text,
            i,
            c + 2,
            c + 2 + rest.len(),
            items[k] + comma,
            commas_from(items, k + 1),
        );
    }
}

proof fn lemma_reads_term(text: Seq<char>, term: TermView)
    requires
        term_writable(term),
    ensures
        reads_as(text, printing::term_text(term), seq![term_kind(term)]),
{
    let piece = printing::term_text(term);
    lemma_marks();
    assert forall|p: int| #[trigger]
        has(text, p, piece) && is_free(text, p + piece.len()) implies lexes(
        text,
        p,
        p + piece.len(),
        seq![term_kind(term)],
    ) by {
        match term {
            TermView::Variable(name) => {
                lemma_lex_name(text, p, name);
            },
            TermView::Constant(ConstantView::U32(value)) => {
                lemma_lex_number(text, p, value);
            },
            TermView::Constant(ConstantView::Symbol(name)) => {
                lemma_lex_symbol(text, p, name);
            },
            TermView::Constant(ConstantView::String(value)) => {
                lemma_lex_string(text, p, value);
            },
        }
    }
}

/// Reading the rest of a text literal does not depend on what follows it.
proof fn lemma_tail_shifted(
    text: Seq<char>,
    p: int,
    written: Seq<char>,
    i: int,
    before: Seq<char>,
)
    requires
        has(text, p, written),
        0 <= i <= written.len(),
        lexer::string_tail(written, i, before).closed,
        lexer::string_tail(written, i, before).problems.len() == 0,
    ensures
        ({
            let tail = lexer::string_tail(written, i, before);
            lexer::string_tail(text, p + i, before) == (StringTail { end: p + tail.end, ..tail })
        }),
    decreases written.len() - i,
{
    if i < written.len() {
        assert(text[p + i] == written[i]);
        if written[i] == '"' {
        } else if written[i] == '\\' {
            if i + 1 < written.len() {
                assert(text[p + (i + 1)] == written[i + 1]);
                if let Some(c) = lexer::escape(written[i + 1]) {
                    lemma_tail_shifted(text, p, written, i + 2, before.push(c));
                }
            }
        } else {
            lemma_tail_shifted(text, p, written, i + 1, before.push(written[i]));
        }
    }
}

proof fn lemma_lex_string(text: Seq<char>, i: int, value: Seq<char>)
    requires
        has(text, i, text::quoted(value)),
        quotes_back(value),
    ensures
        lexes(
            text,
            i,
            i + text::quoted(value).len(),
            seq![TokenKindView::String(value)],
        ),
{
    let written = text::quoted(value);
    assert(text[i + 0] == written[0]);
    if written.len() == 1 {
        assert(!lexer::string_tail(written, 1, Seq::empty()).closed);
    }
    lemma_tail_shifted(text, i, written, 1, Seq::empty());
    lemma_lex_one(text, i, i + written.len());
    assert(kinds(lexer::lex_step(text, i).tokens) =~= seq![TokenKindView::String(value)]);
}

spec fn term_items(atom: AtomView) -> Seq<Kinds> {
    Seq::new(atom.terms.len(), |i: int| seq![term_kind(atom.terms[i].0)])
}

/// A name and a list in parentheses.
spec fn call_kinds(name: Seq<char>, items: Seq<Kinds>) -> Kinds {
    seq![TokenKindView::Ident(name), TokenKindView::Mark(Mark::LeftParen)] + commas_from(items, 0)
        + seq![TokenKindView::Mark(Mark::RightParen)]
}

spec fn atom_kinds(atom: AtomView) -> Kinds {
    call_kinds(atom.predicate.0, term_items(atom))
}

/// Reading tokens of a name and a list in parentheses.
proof fn lemma_lex_call(
    text: Seq<char>,
    i: int,
    name: Seq<char>,
    texts: Seq<Seq<char>>,
    items: Seq<Kinds>,
)
    requires
        is_name(name),
        texts.len() == items.len(),
        has(text, i, name + "("@ + text::joined(texts, ", "@) + ")"@),
        forall|m: int| 0 <= m < texts.len() ==> reads_as(text, #[trigger] texts[m], items[m]),
    ensures
        lexes(
            text,
            i,
            i + (name + "("@ + text::joined(texts, ", "@) + ")"@).len(),
            call_kinds(name, items),
        ),
{
    let inner = text::joined(texts, ", "@);
    lemma_marks();
    lemma_has_split(text, i, name + "("@ + inner, ")"@);
    lemma_has_split(text, i, name + "("@, inner);
    lemma_has_split(text, i, name, "("@);
    let a = i + name.len();
    let b = a + 1 + inner.len();
    assert(text[a + 0] == "("@[0]);
    assert(text[b + 0] == ")"@[0]);
    lemma_lex_name(text, i, name);
    lemma_lex_mark(text, a);
    lemma_lex_mark(text, b);
    let left = seq![TokenKindView::Mark(Mark::LeftParen)];
    let right = seq![TokenKindView::Mark(Mark::RightParen)];
    let ident = seq![TokenKindView::Ident(name)];
    lemma_lexes_chain(text, i, a, a + 1, ident, left);
    assert(ident + left =~= seq![
        TokenKindView::Ident(name),
        TokenKindView::Mark(Mark::LeftParen),
    ]);
    if texts.len() > 0 {
        lemma_joined_is_listed(texts, 0);
        assert(texts.take(0) =~= Seq::empty());
        assert(inner =~= listed_from(texts, 0));
        lemma_lex_listed(text, a + 1, texts, items, 0);
    } else {
        assert(inner =~= Seq::empty());
        assert(Seq::<TokenKindView>::empty() + kinds(lexer::lex_from(text, b).0) =~= kinds(
            lexer::lex_from(text, b).0,
        ));
    }
    lemma_lexes_chain(text, i, a + 1, b, ident + left, commas_from(items, 0));
    lemma_lexes_chain(text, i, b, b + 1, ident + left + commas_from(items, 0), right);
}

proof fn lemma_lex_atom(text: Seq<char>, i: int, atom: AtomView)
    requires
        atom_writable(atom),
        has(text, i, printing::atom_text(atom)),
    ensures
        lexes(text, i, i + printing::atom_text(atom).len(), atom_kinds(atom)),
{
    let texts = Seq::new(atom.terms.len(), |k: int| printing::term_text(atom.terms[k].0));
    let items = term_items(atom);
    assert forall|m: int| 0 <= m < texts.len() implies reads_as(
        text,
        #[trigger] texts[m],
        items[m],
    ) by {
        assert(term_writable(atom.terms[m].0));
        lemma_reads_term(text, atom.terms[m].0);
    }
    lemma_lex_call(text, i, atom.predicate.0, texts, items);
}

spec fn literal_kinds(literal: LiteralView) -> Kinds {
    if literal.negated {
        seq![TokenKindView::Mark(Mark::Bang)] + atom_kinds(literal.atom)
    } else {
        atom_kinds(literal.atom)
    }
}

proof fn lemma_reads_literal(text: Seq<char>, literal: LiteralView)
    requires
        atom_writable(literal.atom),
    ensures
        reads_as(text, printing::literal_text(literal), literal_kinds(literal)),
{
    let piece = printing::literal_text(literal);
    lemma_marks();
    assert forall|p: int| #[trigger]
        has(text, p, piece) && is_free(text, p + piece.len()) implies lexes(
        text,
        p,
        p + piece.len(),
        literal_kinds(literal),
    ) by {
        if literal.negated {
            lemma_has_split(text, p, "!"@, printing::atom_text(literal.atom));
            assert(text[p + 0] == "!"@[0]);
            lemma_lex_mark(text, p);
            lemma_lex_atom(text, p + 1, literal.atom);
            lemma_lexes_chain(
                text,
                p,
                p + 1,
                p + piece.len(),
                seq![TokenKindView::Mark(Mark::Bang)],
                atom_kinds(literal.atom),
            );
        } else {
            lemma_lex_atom(text, p, literal.atom);
        }
    }
}

spec fn body_items(rule: RuleView) -> Seq<Kinds> {
    Seq::new(rule.body.len(), |i: int| literal_kinds(rule.body[i]))
}

spec fn rule_kinds(rule: RuleView) -> Kinds {
    if rule.body.len() == 0 {
        atom_kinds(rule.head) + seq![TokenKindView::Mark(Mark::Dot)]
    } else {
        atom_kinds(rule.head) + seq![TokenKindView::Mark(Mark::ColonDash)] + commas_from(
            body_items(rule),
            0,
        ) + seq![TokenKindView::Mark(Mark::Dot)]
    }
}

proof fn lemma_lex_rule(text: Seq<char>, i: int, rule: RuleView)
    requires
        rule_writable(rule),
        has(text, i, printing::rule_text(rule)),
    ensures
        lexes(text, i, i + printing::rule_text(rule).len(), rule_kinds(rule)),
{
    lemma_marks();
    let head = printing::atom_text(rule.head);
    let dot = seq![TokenKindView::Mark(Mark::Dot)];
    let a = i + head.len();
    if rule.body.len() == 0 {
        lemma_has_split(text, i, head, "."@);
        assert(text[a + 0] == "."@[0]);
        lemma_lex_atom(text, i, rule.head);
        lemma_lex_mark(text, a);
        lemma_lexes_chain(text, i, a, a + 1, atom_kinds(rule.head), dot);
    } else {
        let texts = Seq::new(rule.body.len(), |k: int| printing::literal_text(rule.body[k]));
        let inner = text::joined(texts, ", "@);
        lemma_has_split(text, i, head + " :- "@ + inner, "."@);
        lemma_has_split(text, i, head + " :- "@, inner);
        lemma_has_split(text, i, head, " :- "@);
        let items = body_items(rule);
        let b = a + 4;
        let c = b + inner.len();
        assert(text[a + 0] == " :- "@[0]);
        assert(text[a + 1] == " :- "@[1]);
        assert(text[a + 2] == " :- "@[2]);
        assert(text[a + 3] == " :- "@[3]);
        assert(text[c + 0] == "."@[0]);
        lemma_lex_atom(text, i, rule.head);
        lemma_lex_space(text, a);
        lemma_lex_colon_dash(text, a + 1);
        lemma_lex_space(text, a + 3);
        let arrow = seq![TokenKindView::Mark(Mark::ColonDash)];
        let none = Seq::<TokenKindView>::empty();
        lemma_lexes_chain(text, a, a + 1, a + 3, none, arrow);
        assert(none + arrow =~= arrow);
        lemma_lexes_chain(text, a, a + 3, b, arrow, none);
        assert(arrow + none =~= arrow);
        assert forall|m: int| 0 <= m < texts.len() implies reads_as(
            text,
            #[trigger] texts[m],
            items[m],
        ) by {
            assert(atom_writable(rule.body[m].atom));
            lemma_reads_literal(text, rule.body[m]);
        }
        lemma_joined_is_listed(texts, 0);
        assert(texts.take(0) =~= Seq::empty());
        assert(inner =~= listed_from(texts, 0));
        lemma_lex_listed(text, b, texts, items, 0);
        lemma_lex_mark(text, c);
        lemma_lexes_chain(text, i, a, b, atom_kinds(rule.head), arrow);
        lemma_lexes_chain(
            text,
            i,
            b,
            c,
            atom_kinds(rule.head) + arrow,
            commas_from(items, 0),
        );
        lemma_lexes_chain(
            text,
            i,
            c,
            c + 1,
            atom_kinds(rule.head) + arrow + commas_from(items, 0),
            dot,
        );
    }
}

spec fn attribute_text(i: int) -> Seq<char> {
    "x"@ + text::decimal(i as nat) + ": any"@
}

spec fn attribute_kinds(i: int) -> Kinds {
    seq![
        TokenKindView::Ident("x"@ + text::decimal(i as nat)),
        TokenKindView::Mark(Mark::Colon),
        TokenKindView::Ident("any"@),
    ]
}

spec fn attribute_items(arity: nat) -> Seq<Kinds> {
    Seq::new(arity, |i: int| attribute_kinds(i))
}

proof fn lemma_attribute_name(i: int)
    requires
        0 <= i,
    ensures
        is_name("x"@ + text::decimal(i as nat)),
{
    lemma_marks();
    lemma_decimal(i as nat);
    let name = "x"@ + text::decimal(i as nat);
    assert forall|k: int| 0 <= k < name.len() implies lexer::is_name_part(#[trigger] name[k]) by {
        if k > 0 {
            assert(name[k] == text::decimal(i as nat)[k - 1]);
            assert(text::is_digit(text::decimal(i as nat)[k - 1]));
        }
    }
}

proof fn lemma_reads_attribute(text: Seq<char>, i: int)
    requires
        0 <= i,
    ensures
        reads_as(text, attribute_text(i), attribute_kinds(i)),
{
    let piece = attribute_text(i);
    let name = "x"@ + text::decimal(i as nat);
    lemma_marks();
    lemma_attribute_name(i);
    assert forall|p: int| #[trigger]
        has(text, p, piece) && is_free(text, p + piece.len()) implies lexes(
        text,
        p,
        p + piece.len(),
        attribute_kinds(i),
    ) by {
        lemma_has_split(text, p, name, ": any"@);
        let a = p + name.len();
        lemma_has_split(text, a, seq![':', ' '], "any"@);
        assert(text[a + 0] == seq![':', ' '][0]);
        assert(text[a + 1] == seq![':', ' '][1]);
        lemma_lex_name(text, p, name);
        lemma_lex_colon(text, a);
        lemma_lex_space(text, a + 1);
        lemma_lex_name(text, a + 2, "any"@);
        let none = Seq::<TokenKindView>::empty();
        let ident = seq![TokenKindView::Ident(name)];
        let colon = seq![TokenKindView::Mark(Mark::Colon)];
        let any = seq![TokenKindView::Ident("any"@)];
        lemma_lexes_chain(text, p, a, a + 1, ident, colon);
        lemma_lexes_chain(text, p, a + 1, a + 2, ident + colon, none);
        lemma_lexes_chain(text, p, a + 2, p + piece.len(), ident + colon + none, any);
        assert(ident + colon + none + any =~= attribute_kinds(i));
    }
}

/// One statement of a program.
enum Statement {
    Declaration(DeclarationView),
    Input(Seq<char>),
    Rule(RuleView),
    Output(Seq<char>),
}

spec fn statement_text(statement: Statement) -> Seq<char> {
    match statement {
        Statement::Declaration(declaration) => printing::declaration_text(declaration),
        Statement::Input(name) => ".input "@ + name,
        Statement::Rule(rule) => printing::rule_text(rule),
        Statement::Output(name) => ".output "@ + name,
    }
}

spec fn statement_writable(statement: Statement) -> bool {
    match statement {
        Statement::Declaration(declaration) => is_name(declaration.predicate.0),
        Statement::Input(name) => is_name(name),
        Statement::Rule(rule) => rule_writable(rule),
        Statement::Output(name) => is_name(name),
    }
}

spec fn directive_kinds(word: Seq<char>) -> Kinds {
    seq![TokenKindView::Mark(Mark::Dot), TokenKindView::Ident(word)]
}

spec fn statement_kinds(statement: Statement) -> Kinds {
    match statement {
        Statement::Declaration(declaration) => directive_kinds("decl"@) + call_kinds(
            declaration.predicate.0,
            attribute_items(declaration.arity as nat),
        ),
        Statement::Input(name) => directive_kinds("input"@) + seq![TokenKindView::Ident(name)],
        Statement::Rule(rule) => rule_kinds(rule),
        Statement::Output(name) => directive_kinds("output"@) + seq![TokenKindView::Ident(name)],
    }
}

/// Reading tokens of the start of a directive.
proof fn lemma_lex_directive(text: Seq<char>, i: int, word: Seq<char>)
    requires
        is_name(word),
        has(text, i, seq!['.'] + word + seq![' ']),
    ensures
        lexes(text, i, i + word.len() + 2, directive_kinds(word)),
{
    lemma_has_split(text, i, seq!['.'] + word, seq![' ']);
    lemma_has_split(text, i, seq!['.'], word);
    assert(text[i + 0] == seq!['.'][0]);
    let a = i + 1 + word.len();
    assert(text[a + 0] == seq![' '][0]);
    lemma_lex_mark(text, i);
    lemma_lex_name(text, i + 1, word);
    lemma_lex_space(text, a);
    let dot = seq![TokenKindView::Mark(Mark::Dot)];
    let ident = seq![TokenKindView::Ident(word)];
    let none = Seq::<TokenKindView>::empty();
    lemma_lexes_chain(text, i, i + 1, a, dot, ident);
    lemma_lexes_chain(text, i, a, a + 1, dot + ident, none);
    assert(dot + ident + none =~= directive_kinds(word));
}

proof fn lemma_lex_named_directive(
    text: Seq<char>,
    i: int,
    word: Seq<char>,
    name: Seq<char>,
)
    requires
        is_name(word),
        is_name(name),
        has(text, i, seq!['.'] + word + seq![' '] + name),
        is_free(text, i + (seq!['.'] + word + seq![' '] + name).len()),
    ensures
        lexes(
            text,
            i,
            i + (seq!['.'] + word + seq![' '] + name).len(),
            directive_kinds(word) + seq![TokenKindView::Ident(name)],
        ),
{
    lemma_has_split(text, i, seq!['.'] + word + seq![' '], name);
    lemma_lex_directive(text, i, word);
    let a = i + word.len() + 2;
    lemma_lex_name(text, a, name);
    lemma_lexes_chain(
        text,
        i,
        a,
        a + name.len(),
        directive_kinds(word),
        seq![TokenKindView::Ident(name)],
    );
}

proof fn lemma_lex_statement(text: Seq<char>, i: int, statement: Statement)
    requires
        statement_writable(statement),
        has(text, i, statement_text(statement)),
        is_free(text, i + statement_text(statement).len()),
    ensures
        lexes(text, i, i + statement_text(statement).len(), statement_kinds(statement)),
{
    lemma_marks();
    match statement {
        Statement::Declaration(declaration) => {
            let name = declaration.predicate.0;
            let arity = declaration.arity as nat;
            let texts = Seq::new(
                arity,
                |k: int| "x"@ + text::decimal(k as nat) + ": any"@,
            );
            let items = attribute_items(arity);
            let inner = text::joined(texts, ", "@);
            let call = name + "("@ + inner + ")"@;
            assert(statement_text(statement) =~= ".decl "@ + call);
            lemma_has_split(text, i, ".decl "@, call);
            lemma_lex_directive(text, i, "decl"@);
            assert forall|m: int| 0 <= m < texts.len() implies reads_as(
                text,
                #[trigger] texts[m],
                items[m],
            ) by {
                lemma_reads_attribute(text, m);
                assert(texts[m] == attribute_text(m));
            }
            let a = i + "decl"@.len() + 2;
            lemma_lex_call(text, a, name, texts, items);
            lemma_lexes_chain(
                text,
                i,
                a,
                a + call.len(),
                directive_kinds("decl"@),
                call_kinds(name, items),
            );
        },
        Statement::Input(name) => {
            lemma_lex_named_directive(text, i, "input"@, name);
        },
        Statement::Rule(rule) => {
            lemma_lex_rule(text, i, rule);
        },
        Statement::Output(name) => {
            lemma_lex_named_directive(text, i, "output"@, name);
        },
    }
}

/// The statements of a program in the order in which it is written.
spec fn statements(program: ProgramView) -> Seq<Statement> {
    Seq::new(
        program.declarations.len(),
        |i: int| Statement::Declaration(program.declarations[i]),
    ) + Seq::new(program.inputs.len(), |i: int| Statement::Input(program.inputs[i].0)) + Seq::new(
        program.rules.len(),
        |i: int| Statement::Rule(program.rules[i]),
    ) + Seq::new(program.outputs.len(), |i: int| Statement::Output(program.outputs[i].0))
}

/// The lines of statements from one on.
spec fn lines_from(all: Seq<Statement>, m: int) -> Seq<char>
    decreases all.len() - m,
{
    if m < 0 || m >= all.len() {
        Seq::empty()
    } else {
        statement_text(all[m]) + "\n"@ + lines_from(all, m + 1)
    }
}

/// The kinds of the tokens of statements from one on.
spec fn kinds_from(all: Seq<Statement>, m: int) -> Kinds
    decreases all.len() - m,
{
    if m < 0 || m >= all.len() {
        Seq::empty()
    } else {
        statement_kinds(all[m]) + kinds_from(all, m + 1)
    }
}

proof fn lemma_lined_sum(a: Seq<Seq<char>>, b: Seq<Seq<char>>)
    ensures
        printing::lined(a + b) == printing::lined(a) + printing::lined(b),
    decreases b.len(),
{
    if b.len() == 0 {
        assert(a + b =~= a);
        assert(printing::lined(a) + printing::lined(b) =~= printing::lined(a));
    } else {
        lemma_lined_sum(a, b.drop_last());
        assert((a + b).drop_last() =~= a + b.drop_last());
        assert(printing::lined(a + b) =~= printing::lined(a) + printing::lined(b));
    }
}

spec fn statement_texts(all: Seq<Statement>) -> Seq<Seq<char>> {
    Seq::new(all.len(), |i: int| statement_text(all[i]))
}

proof fn lemma_lined_from(all: Seq<Statement>, m: int)
    requires
        0 <= m <= all.len(),
    ensures
        printing::lined(statement_texts(all)) == printing::lined(statement_texts(all).take(m))
            + lines_from(all, m),
    decreases all.len() - m,
{
    let texts = statement_texts(all);
    if m < all.len() {
        lemma_lined_from(all, m + 1);
        assert(texts.take(m + 1).drop_last() =~= texts.take(m));
        assert(printing::lined(texts) =~= printing::lined(texts.take(m)) + lines_from(all, m));
    } else {
        assert(texts.take(m) =~= texts);
        assert(printing::lined(texts) + lines_from(all, m) =~= printing::lined(texts));
    }
}

proof fn lemma_program_lines(program: ProgramView)
    ensures
        printing::program_text(program) == lines_from(statements(program), 0),
{
    let a = printing::declaration_lines(program);
    let b = printing::name_lines(".input "@, program.inputs);
    let c = printing::rule_lines(program);
    let d = printing::name_lines(".output "@, program.outputs);
    lemma_lined_sum(a, b);
    lemma_lined_sum(a + b, c);
    lemma_lined_sum(a + b + c, d);
    let all = statements(program);
    assert(statement_texts(all) =~= a + b + c + d);
    lemma_lined_from(all, 0);
    assert(statement_texts(all).take(0) =~= Seq::empty());
    assert(printing::lined(statement_texts(all).take(0)) + lines_from(all, 0) =~= lines_from(
        all,
        0,
    ));
}

spec fn all_writable(all: Seq<Statement>) -> bool {
    forall|m: int| 0 <= m < all.len() ==> statement_writable(#[trigger] all[m])
}

proof fn lemma_lex_lines(text: Seq<char>, i: int, all: Seq<Statement>, m: int)
    requires
        all_writable(all),
        0 <= m <= all.len(),
        has(text, i, lines_from(all, m)),
        i + lines_from(all, m).len() == text.len(),
    ensures
        kinds(lexer::lex_from(text, i).0) == kinds_from(all, m),
        lexer::lex_from(text, i).1.len() == 0,
    decreases all.len() - m,
{
    if m < all.len() {
        let own = statement_text(all[m]);
        let rest = lines_from(all, m + 1);
        lemma_marks();
        lemma_has_split(text, i, own + "\n"@, rest);
        lemma_has_split(text, i, own, "\n"@);
        let a = i + own.len();
        assert(text[a + 0] == "\n"@[0]);
        assert(statement_writable(all[m]));
        lemma_lex_statement(text, i, all[m]);
        lemma_lex_space(text, a);
        lemma_lexes_chain(text, i, a, a + 1, statement_kinds(all[m]), Seq::empty());
        assert(statement_kinds(all[m]) + Seq::<TokenKindView>::empty() =~= statement_kinds(
            all[m],
        ));
        lemma_lex_lines(text, a + 1, all, m + 1);
    } else {
        assert(kinds(lexer::lex_from(text, i).0) =~= Seq::empty());
    }
}

/// Whether tokens from a position on are of some kinds.
spec fn at(tokens: Seq<TokenView>, pos: int, found: Kinds) -> bool {
    &&& 0 <= pos
    &&& pos + found.len() <= tokens.len()
    &&& forall|k: int| 0 <= k < found.len() ==> tokens[pos + k].kind == #[trigger] found[k]
}

proof fn lemma_at_split(tokens: Seq<TokenView>, pos: int, a: Kinds, b: Kinds)
    requires
        at(tokens, pos, a + b),
    ensures
        at(tokens, pos, a),
        at(tokens, pos + a.len(), b),
{
    assert forall|k: int| 0 <= k < a.len() implies tokens[pos + k].kind == #[trigger] a[k] by {
        assert((a + b)[k] == a[k]);
    }
    assert forall|k: int| 0 <= k < b.len() implies tokens[pos + a.len() + k].kind
        == #[trigger] b[k] by {
        assert((a + b)[a.len() + k] == b[k]);
    }
}

proof fn lemma_read_terms(
    tokens: Seq<TokenView>,
    pos: int,
    atom: AtomView,
    k: int,
    before: Seq<(TermView, Span)>,
) -> (terms: Seq<(TermView, Span)>)
    requires
        atom_writable(atom),
        0 <= k < atom.terms.len(),
        at(tokens, pos, commas_from(term_items(atom), k)),
        !parser::at_mark(tokens, pos + commas_from(term_items(atom), k).len(), Mark::Comma),
        before.len() == k,
        forall|i: int| 0 <= i < k ==> (#[trigger] before[i]).0 == atom.terms[i].0,
    ensures
        parser::read_terms(tokens, pos, before) == (
            Ok::<Seq<(TermView, Span)>, DiagnosticView>(terms),
            (pos + commas_from(term_items(atom), k).len()) as int,
        ),
        terms.len() == atom.terms.len(),
        forall|i: int| 0 <= i < terms.len() ==> (#[trigger] terms[i]).0 == atom.terms[i].0,
    decreases atom.terms.len() - k,
{
    let items = term_items(atom);
    let own = atom.terms[k].0;
    assert(term_writable(atom.terms[k].0));
    let read = (own, tokens[pos].span);
    let comma = seq![TokenKindView::Mark(Mark::Comma)];
    if k + 1 == atom.terms.len() {
        assert(tokens[pos + 0].kind == items[k][0]);
        before.push(read)
    } else {
        lemma_at_split(tokens, pos, items[k] + comma, commas_from(items, k + 1));
        lemma_at_split(tokens, pos, items[k], comma);
        assert(tokens[pos + 0].kind == items[k][0]);
        assert(tokens[pos + 1 + 0].kind == comma[0]);
        lemma_read_terms(tokens, pos + 2, atom, k + 1, before.push(read))
    }
}

proof fn lemma_read_atom(tokens: Seq<TokenView>, pos: int, atom: AtomView) -> (read: AtomView)
    requires
        atom_writable(atom),
        at(tokens, pos, atom_kinds(atom)),
    ensures
        parser::read_atom(tokens, pos) == (
            Ok::<AtomView, DiagnosticView>(read),
            (pos + atom_kinds(atom).len()) as int,
        ),
        same_atom(read, atom),
{
    let items = term_items(atom);
    let open = seq![
        TokenKindView::Ident(atom.predicate.0),
        TokenKindView::Mark(Mark::LeftParen),
    ];
    let close = seq![TokenKindView::Mark(Mark::RightParen)];
    lemma_at_split(tokens, pos, open + commas_from(items, 0), close);
    lemma_at_split(tokens, pos, open, commas_from(items, 0));
    let end = pos + 2 + commas_from(items, 0).len();
    assert(tokens[pos + 0].kind == open[0]);
    assert(tokens[pos + 1].kind == open[1]);
    assert(tokens[end + 0].kind == close[0]);
    let predicate = (atom.predicate.0, tokens[pos].span);
    let span = predicate.1.joined(tokens[end].span);
    if atom.terms.len() == 0 {
        AtomView { predicate, terms: Seq::empty(), span }
    } else {
        assert(tokens[pos + 2 + 0].kind == commas_from(items, 0)[0]) by {
            assert(commas_from(items, 0)[0] == items[0][0]);
        }
        assert(term_writable(atom.terms[0].0));
        assert(!parser::at_mark(tokens, pos + 2, Mark::RightParen));
        let terms = lemma_read_terms(tokens, pos + 2, atom, 0, Seq::empty());
        AtomView { predicate, terms, span }
    }
}

proof fn lemma_read_literal(
    tokens: Seq<TokenView>,
    pos: int,
    literal: LiteralView,
) -> (read: LiteralView)
    requires
        atom_writable(literal.atom),
        at(tokens, pos, literal_kinds(literal)),
    ensures
        parser::read_literal(tokens, pos) == (
            Ok::<LiteralView, DiagnosticView>(read),
            (pos + literal_kinds(literal).len()) as int,
        ),
        same_literal(read, literal),
{
    let bang = seq![TokenKindView::Mark(Mark::Bang)];
    if literal.negated {
        lemma_at_split(tokens, pos, bang, atom_kinds(literal.atom));
        assert(tokens[pos + 0].kind == bang[0]);
        let atom = lemma_read_atom(tokens, pos + 1, literal.atom);
        LiteralView { negated: true, atom, span: tokens[pos].span.joined(atom.span) }
    } else {
        assert(tokens[pos + 0].kind == atom_kinds(literal.atom)[0]);
        let atom = lemma_read_atom(tokens, pos, literal.atom);
        LiteralView { negated: false, atom, span: atom.span }
    }
}

proof fn lemma_read_body(
    tokens: Seq<TokenView>,
    pos: int,
    rule: RuleView,
    k: int,
    before: Seq<LiteralView>,
) -> (body: Seq<LiteralView>)
    requires
        rule_writable(rule),
        0 <= k < rule.body.len(),
        at(tokens, pos, commas_from(body_items(rule), k)),
        !parser::at_mark(tokens, pos + commas_from(body_items(rule), k).len(), Mark::Comma),
        before.len() == k,
        forall|i: int| 0 <= i < k ==> same_literal(#[trigger] before[i], rule.body[i]),
    ensures
        parser::read_body(tokens, pos, before) == (
            Ok::<Seq<LiteralView>, DiagnosticView>(body),
            (pos + commas_from(body_items(rule), k).len()) as int,
        ),
        body.len() == rule.body.len(),
        forall|i: int| 0 <= i < body.len() ==> same_literal(#[trigger] body[i], rule.body[i]),
    decreases rule.body.len() - k,
{
    let items = body_items(rule);
    let comma = seq![TokenKindView::Mark(Mark::Comma)];
    assert(atom_writable(rule.body[k].atom));
    if k + 1 == rule.body.len() {
        let read = lemma_read_literal(tokens, pos, rule.body[k]);
        before.push(read)
    } else {
        lemma_at_split(tokens, pos, items[k] + comma, commas_from(items, k + 1));
        lemma_at_split(tokens, pos, items[k], comma);
        let read = lemma_read_literal(tokens, pos, rule.body[k]);
        let next = pos + items[k].len();
        assert(tokens[next + 0].kind == comma[0]);
        lemma_read_body(tokens, next + 1, rule, k + 1, before.push(read))
    }
}

proof fn lemma_read_rule(tokens: Seq<TokenView>, pos: int, rule: RuleView) -> (read: RuleView)
    requires
        rule_writable(rule),
        at(tokens, pos, rule_kinds(rule)),
    ensures
        parser::read_rule(tokens, pos) == (
            Ok::<RuleView, DiagnosticView>(read),
            (pos + rule_kinds(rule).len()) as int,
        ),
        same_rule(read, rule),
{
    let head_kinds = atom_kinds(rule.head);
    let dot = seq![TokenKindView::Mark(Mark::Dot)];
    let a = pos + head_kinds.len();
    if rule.body.len() == 0 {
        lemma_at_split(tokens, pos, head_kinds, dot);
        assert(tokens[a + 0].kind == dot[0]);
        let head = lemma_read_atom(tokens, pos, rule.head);
        RuleView { head, body: Seq::empty(), span: head.span.joined(tokens[a].span) }
    } else {
        let arrow = seq![TokenKindView::Mark(Mark::ColonDash)];
        let items = commas_from(body_items(rule), 0);
        lemma_at_split(tokens, pos, head_kinds + arrow + items, dot);
        lemma_at_split(tokens, pos, head_kinds + arrow, items);
        lemma_at_split(tokens, pos, head_kinds, arrow);
        let end = a + 1 + items.len();
        assert(tokens[a + 0].kind == arrow[0]);
        assert(tokens[end + 0].kind == dot[0]);
        let head = lemma_read_atom(tokens, pos, rule.head);
        let body = lemma_read_body(tokens, a + 1, rule, 0, Seq::empty());
        RuleView { head, body, span: head.span.joined(tokens[end].span) }
    }
}

proof fn lemma_read_attributes(tokens: Seq<TokenView>, pos: int, arity: nat, k: int)
    requires
        0 <= k < arity,
        at(tokens, pos, commas_from(attribute_items(arity), k)),
        !parser::at_mark(tokens, pos + commas_from(attribute_items(arity), k).len(), Mark::Comma),
    ensures
        parser::read_attributes(tokens, pos, k as nat) == (
            Ok::<nat, DiagnosticView>(arity),
            (pos + commas_from(attribute_items(arity), k).len()) as int,
        ),
    decreases arity - k,
{
    let items = attribute_items(arity);
    let comma = seq![TokenKindView::Mark(Mark::Comma)];
    if k + 1 == arity {
        assert(tokens[pos + 0].kind == items[k][0]);
        assert(tokens[pos + 1].kind == items[k][1]);
        assert(tokens[pos + 2].kind == items[k][2]);
    } else {
        lemma_at_split(tokens, pos, items[k] + comma, commas_from(items, k + 1));
        lemma_at_split(tokens, pos, items[k], comma);
        assert(tokens[pos + 0].kind == items[k][0]);
        assert(tokens[pos + 1].kind == items[k][1]);
        assert(tokens[pos + 2].kind == items[k][2]);
        assert(tokens[pos + 3 + 0].kind == comma[0]);
        lemma_read_attributes(tokens, pos + 4, arity, k + 1);
    }
}

/// Whether what follows a directive does not belong to it.
spec fn is_apart(tokens: Seq<TokenView>, pos: int) -> bool {
    parser::at_mark(tokens, pos, Mark::Dot) ==> parser::at_directive(tokens, pos)
}

/// A program with one more statement.
spec fn with_statement(program: ProgramView, statement: Statement, span: Span) -> ProgramView {
    match statement {
        Statement::Declaration(declaration) => ProgramView {
            declarations: program.declarations.push(declaration),
            ..program
        },
        Statement::Input(name) => ProgramView {
            inputs: program.inputs.push((name, span)),
            ..program
        },
        Statement::Rule(rule) => ProgramView { rules: program.rules.push(rule), ..program },
        Statement::Output(name) => ProgramView {
            outputs: program.outputs.push((name, span)),
            ..program
        },
    }
}

proof fn lemma_read_statement(
    tokens: Seq<TokenView>,
    pos: int,
    statement: Statement,
    sofar: ProgramView,
    known: ProgramView,
    span: Span,
) -> (read: ProgramView)
    requires
        statement_writable(statement),
        at(tokens, pos, statement_kinds(statement)),
        is_apart(tokens, pos + statement_kinds(statement).len()),
        same_program(sofar, known),
    ensures
        parser::read_statement(tokens, pos, sofar) == (
            read,
            Seq::<DiagnosticView>::empty(),
            (pos + statement_kinds(statement).len()) as int,
        ),
        same_program(read, with_statement(known, statement, span)),
{
    lemma_marks();
    match statement {
        Statement::Declaration(declaration) => {
            let word = directive_kinds("decl"@);
            let name = declaration.predicate.0;
            let items = attribute_items(declaration.arity as nat);
            let open = seq![TokenKindView::Ident(name), TokenKindView::Mark(Mark::LeftParen)];
            let close = seq![TokenKindView::Mark(Mark::RightParen)];
            lemma_at_split(tokens, pos, word, call_kinds(name, items));
            lemma_at_split(tokens, pos + 2, open + commas_from(items, 0), close);
            lemma_at_split(tokens, pos + 2, open, commas_from(items, 0));
            let end = pos + 4 + commas_from(items, 0).len();
            assert(tokens[pos + 0].kind == word[0]);
            assert(tokens[pos + 1].kind == word[1]);
            assert(tokens[pos + 2 + 0].kind == open[0]);
            assert(tokens[pos + 2 + 1].kind == open[1]);
            assert(tokens[end + 0].kind == close[0]);
            if declaration.arity > 0 {
                assert(tokens[pos + 4 + 0].kind == commas_from(items, 0)[0]) by {
                    assert(commas_from(items, 0)[0] == items[0][0]);
                }
                lemma_read_attributes(tokens, pos + 4, declaration.arity as nat, 0);
            }
            let read = DeclarationView {
                predicate: (name, tokens[pos + 2].span),
                arity: declaration.arity,
            };
            ProgramView { declarations: sofar.declarations.push(read), ..sofar }
        },
        Statement::Input(name) => {
            let word = directive_kinds("input"@);
            lemma_at_split(tokens, pos, word, seq![TokenKindView::Ident(name)]);
            assert(tokens[pos + 0].kind == word[0]);
            assert(tokens[pos + 1].kind == word[1]);
            assert(tokens[pos + 2 + 0].kind == seq![TokenKindView::Ident(name)][0]);
            ProgramView { inputs: sofar.inputs.push((name, tokens[pos + 2].span)), ..sofar }
        },
        Statement::Rule(rule) => {
            let read = lemma_read_rule(tokens, pos, rule);
            assert(tokens[pos + 0].kind == rule_kinds(rule)[0]);
            ProgramView { rules: sofar.rules.push(read), ..sofar }
        },
        Statement::Output(name) => {
            let word = directive_kinds("output"@);
            lemma_at_split(tokens, pos, word, seq![TokenKindView::Ident(name)]);
            assert(tokens[pos + 0].kind == word[0]);
            assert(tokens[pos + 1].kind == word[1]);
            assert(tokens[pos + 2 + 0].kind == seq![TokenKindView::Ident(name)][0]);
            ProgramView { outputs: sofar.outputs.push((name, tokens[pos + 2].span)), ..sofar }
        },
    }
}

spec fn clamp(value: int, most: nat) -> int {
    if value < 0 {
        0
    } else if value > most {
        most as int
    } else {
        value
    }
}

/// The part of a program that its first statements make up.
spec fn first_part(program: ProgramView, m: int) -> ProgramView {
    let d = program.declarations.len();
    let i = program.inputs.len();
    let r = program.rules.len();
    ProgramView {
        declarations: program.declarations.take(clamp(m, d)),
        inputs: program.inputs.take(clamp(m - d, i)),
        rules: program.rules.take(clamp(m - d - i, r)),
        outputs: program.outputs.take(clamp(m - d - i - r, program.outputs.len())),
    }
}

/// The span of a statement that is a name.
spec fn span_at(program: ProgramView, m: int) -> Span {
    let d = program.declarations.len();
    let i = program.inputs.len();
    let r = program.rules.len();
    if m < d + i {
        program.inputs[m - d].1
    } else {
        program.outputs[m - d - i - r].1
    }
}

proof fn lemma_first_part(program: ProgramView, m: int)
    requires
        0 <= m < statements(program).len(),
    ensures
        with_statement(first_part(program, m), statements(program)[m], span_at(program, m))
            == first_part(program, m + 1),
{
    let d = program.declarations.len();
    let i = program.inputs.len();
    let r = program.rules.len();
    let all = statements(program);
    let before = first_part(program, m);
    let after = first_part(program, m + 1);
    let made = with_statement(before, all[m], span_at(program, m));
    assert(made.declarations =~= after.declarations);
    assert(made.inputs =~= after.inputs);
    assert(made.rules =~= after.rules);
    assert(made.outputs =~= after.outputs);
    assert(made =~= after);
}

/// What follows statements is apart from a directive before it.
proof fn lemma_apart(tokens: Seq<TokenView>, pos: int, all: Seq<Statement>, m: int)
    requires
        0 <= m <= all.len(),
        at(tokens, pos, kinds_from(all, m)),
        tokens.len() == pos + kinds_from(all, m).len(),
    ensures
        is_apart(tokens, pos),
{
    if m < all.len() {
        lemma_marks();
        lemma_at_split(tokens, pos, statement_kinds(all[m]), kinds_from(all, m + 1));
        let own = statement_kinds(all[m]);
        assert(tokens[pos + 0].kind == own[0]);
        match all[m] {
            Statement::Rule(rule) => {
                assert(own[0] == TokenKindView::Ident(rule.head.predicate.0));
            },
            Statement::Declaration(_) => {
                assert(own[0] == directive_kinds("decl"@)[0]);
                assert(own[1] == directive_kinds("decl"@)[1]);
                assert(tokens[pos + 1].kind == own[1]);
            },
            Statement::Input(_) => {
                assert(own[1] == directive_kinds("input"@)[1]);
                assert(tokens[pos + 1].kind == own[1]);
            },
            Statement::Output(_) => {
                assert(own[1] == directive_kinds("output"@)[1]);
                assert(tokens[pos + 1].kind == own[1]);
            },
        }
    }
}

proof fn lemma_read_all(
    tokens: Seq<TokenView>,
    pos: int,
    program: ProgramView,
    m: int,
    sofar: ProgramView,
) -> (read: ProgramView)
    requires
        all_writable(statements(program)),
        0 <= m <= statements(program).len(),
        at(tokens, pos, kinds_from(statements(program), m)),
        tokens.len() == pos + kinds_from(statements(program), m).len(),
        same_program(sofar, first_part(program, m)),
    ensures
        parser::read_statements(tokens, pos, sofar) == (read, Seq::<DiagnosticView>::empty()),
        same_program(read, program),
    decreases statements(program).len() - m,
{
    let all = statements(program);
    if m < all.len() {
        let own = statement_kinds(all[m]);
        lemma_at_split(tokens, pos, own, kinds_from(all, m + 1));
        lemma_apart(tokens, pos + own.len(), all, m + 1);
        assert(statement_writable(all[m]));
        let next = lemma_read_statement(
            tokens,
            pos,
            all[m],
            sofar,
            first_part(program, m),
            span_at(program, m),
        );
        lemma_first_part(program, m);
        assert(own.len() > 0);
        let read = lemma_read_all(tokens, pos + own.len(), program, m + 1, next);
        assert(Seq::<DiagnosticView>::empty() + Seq::<DiagnosticView>::empty()
            =~= Seq::<DiagnosticView>::empty());
        read
    } else {
        assert(first_part(program, m) =~= program) by {
            let part = first_part(program, m);
            assert(part.declarations =~= program.declarations);
            assert(part.inputs =~= program.inputs);
            assert(part.rules =~= program.rules);
            assert(part.outputs =~= program.outputs);
        }
        sofar
    }
}

proof fn lemma_same_text(a: ProgramView, b: ProgramView)
    requires
        same_program(a, b),
    ensures
        printing::program_text(a) == printing::program_text(b),
{
    assert forall|i: int| 0 <= i < a.rules.len() implies printing::rule_text(#[trigger] a.rules[i])
        == printing::rule_text(b.rules[i]) by {
        lemma_same_rule_text(a.rules[i], b.rules[i]);
    }
    assert(printing::rule_lines(a) =~= printing::rule_lines(b));
    assert forall|i: int| 0 <= i < a.declarations.len() implies printing::declaration_text(
        #[trigger] a.declarations[i],
    ) == printing::declaration_text(b.declarations[i]) by {}
    assert(printing::declaration_lines(a) =~= printing::declaration_lines(b));
    assert(printing::name_lines(".input "@, a.inputs) =~= printing::name_lines(
        ".input "@,
        b.inputs,
    ));
    assert(printing::name_lines(".output "@, a.outputs) =~= printing::name_lines(
        ".output "@,
        b.outputs,
    ));
}

proof fn lemma_same_atom_text(a: AtomView, b: AtomView)
    requires
        same_atom(a, b),
    ensures
        printing::atom_text(a) == printing::atom_text(b),
{
    assert(Seq::new(a.terms.len(), |i: int| printing::term_text(a.terms[i].0)) =~= Seq::new(
        b.terms.len(),
        |i: int| printing::term_text(b.terms[i].0),
    ));
}

proof fn lemma_same_rule_text(a: RuleView, b: RuleView)
    requires
        same_rule(a, b),
    ensures
        printing::rule_text(a) == printing::rule_text(b),
{
    lemma_same_atom_text(a.head, b.head);
    assert forall|i: int| 0 <= i < a.body.len() implies printing::literal_text(
        #[trigger] a.body[i],
    ) == printing::literal_text(b.body[i]) by {
        assert(same_literal(a.body[i], b.body[i]));
        lemma_same_atom_text(a.body[i].atom, b.body[i].atom);
    }
    assert(Seq::new(a.body.len(), |i: int| printing::literal_text(a.body[i])) =~= Seq::new(
        b.body.len(),
        |i: int| printing::literal_text(b.body[i]),
    ));
}

/// What a program that is written reads back as.
pub open spec fn reads_back(program: ProgramView) -> bool {
    let again = parser::parsed(printing::program_text(program));
    &&& again.diagnostics.len() == 0
    &&& same_program(again.program, program)
    &&& printing::program_text(again.program) == printing::program_text(program)
}

/// A program that is written reads back without a problem, as the same program but for where its
/// parts stand, and is then written in the same way, where every text in it is read back from
/// between its quotes.
pub proof fn law_written_program_reads_back(program: ProgramView)
    requires
        program_named(program),
    ensures
        program_quotes_back(program) ==> reads_back(program),
{
    if program_quotes_back(program) {
        lemma_reads_back(program);
    }
}

proof fn lemma_reads_back(program: ProgramView)
    requires
        program_named(program),
        program_quotes_back(program),
    ensures
        reads_back(program),
{
    let text = printing::program_text(program);
    let all = statements(program);
    lemma_program_lines(program);
    assert forall|m: int| 0 <= m < all.len() implies statement_writable(#[trigger] all[m]) by {
        let d = program.declarations.len();
        let i = program.inputs.len();
        let r = program.rules.len();
        if m < d {
            assert(all[m] == Statement::Declaration(program.declarations[m]));
        } else if m < d + i {
            assert(all[m] == Statement::Input(program.inputs[m - d].0));
        } else if m < d + i + r {
            assert(all[m] == Statement::Rule(program.rules[m - d - i]));
            assert(rule_named(program.rules[m - d - i]));
            assert(rule_quotes_back(program.rules[m - d - i]));
            assert forall|j: int|
                0 <= j < program.rules[m - d - i].body.len() implies atom_writable(
                (#[trigger] program.rules[m - d - i].body[j]).atom,
            ) by {}
        } else {
            assert(all[m] == Statement::Output(program.outputs[m - d - i - r].0));
        }
    }
    lemma_lex_lines(text, 0, all, 0);
    let tokens = lexer::lex_from(text, 0).0;
    assert(kinds(tokens).len() == tokens.len());
    assert(at(tokens, 0, kinds_from(all, 0))) by {
        assert forall|k: int| 0 <= k < kinds_from(all, 0).len() implies tokens[0 + k].kind
            == #[trigger] kinds_from(all, 0)[k] by {
            assert(kinds(tokens)[k] == tokens[k].kind);
        }
    }
    let none = parser::empty_program();
    let read = lemma_read_all(tokens, 0, program, 0, none);
    lemma_same_text(read, program);
}

/// Whether the names in tokens are names.
spec fn kind_named(kind: TokenKindView) -> bool {
    match kind {
        TokenKindView::Ident(name) => is_name(name),
        TokenKindView::Symbol(name) => name.len() > 0 && all_name_parts(name),
        _ => true,
    }
}

spec fn tokens_named(tokens: Seq<TokenView>) -> bool {
    forall|i: int| 0 <= i < tokens.len() ==> kind_named((#[trigger] tokens[i]).kind)
}

proof fn lemma_name_run(text: Seq<char>, i: int)
    requires
        0 <= i <= text.len(),
    ensures
        i <= lexer::name_end(text, i) <= text.len(),
        forall|k: int|
            i <= k < lexer::name_end(text, i) ==> lexer::is_name_part(#[trigger] text[k]),
    decreases text.len() - i,
{
    if i < text.len() && lexer::is_name_part(text[i]) {
        lemma_name_run(text, i + 1);
    }
}

proof fn lemma_step_named(text: Seq<char>, i: int)
    requires
        0 <= i < text.len(),
    ensures
        tokens_named(lexer::lex_step(text, i).tokens),
{
    lemma_name_run(text, i + 1);
    let end = lexer::name_end(text, i + 1);
    let name = text.subrange(i, end);
    let symbol = text.subrange(i + 1, end);
    if lexer::is_name_start(text[i]) {
        assert forall|k: int| 0 <= k < name.len() implies lexer::is_name_part(#[trigger] name[k]) by {
            assert(name[k] == text[i + k]);
        }
    }
    assert forall|k: int| 0 <= k < symbol.len() implies lexer::is_name_part(#[trigger] symbol[k]) by {
        assert(symbol[k] == text[i + 1 + k]);
    }
}

proof fn lemma_lex_named(text: Seq<char>, i: int)
    ensures
        tokens_named(lexer::lex_from(text, i).0),
    decreases text.len() - i,
{
    if 0 <= i < text.len() {
        lemma_step_named(text, i);
        let step = lexer::lex_step(text, i);
        if i < step.next <= text.len() {
            lemma_lex_named(text, step.next);
            let rest = lexer::lex_from(text, step.next).0;
            let all = step.tokens + rest;
            assert forall|k: int| 0 <= k < all.len() implies kind_named((#[trigger] all[k]).kind) by {
                if k < step.tokens.len() {
                    assert(all[k] == step.tokens[k]);
                } else {
                    assert(all[k] == rest[k - step.tokens.len()]);
                }
            }
        }
    }
}

proof fn lemma_terms_named(tokens: Seq<TokenView>, pos: int, before: Seq<(TermView, Span)>)
    requires
        tokens_named(tokens),
        forall|i: int| 0 <= i < before.len() ==> term_named((#[trigger] before[i]).0),
    ensures
        parser::read_terms(tokens, pos, before).0 matches Ok(terms) ==> forall|i: int|
            0 <= i < terms.len() ==> term_named((#[trigger] terms[i]).0),
    decreases tokens.len() - pos,
{
    if let (Ok(term), next) = parser::read_term(tokens, pos) {
        assert(kind_named(tokens[pos].kind));
        if parser::at_mark(tokens, next, Mark::Comma) && next >= pos {
            lemma_terms_named(tokens, next + 1, before.push(term));
        }
    }
}

proof fn lemma_atom_named(tokens: Seq<TokenView>, pos: int)
    requires
        tokens_named(tokens),
    ensures
        parser::read_atom(tokens, pos).0 matches Ok(atom) ==> atom_named(atom),
{
    if 0 <= pos < tokens.len() {
        assert(kind_named(tokens[pos].kind));
    }
    lemma_terms_named(tokens, pos + 2, Seq::empty());
}

proof fn lemma_body_named(tokens: Seq<TokenView>, pos: int, before: Seq<LiteralView>)
    requires
        tokens_named(tokens),
        forall|i: int| 0 <= i < before.len() ==> atom_named((#[trigger] before[i]).atom),
    ensures
        parser::read_body(tokens, pos, before).0 matches Ok(body) ==> forall|i: int|
            0 <= i < body.len() ==> atom_named((#[trigger] body[i]).atom),
    decreases tokens.len() - pos,
{
    lemma_atom_named(tokens, pos);
    lemma_atom_named(tokens, pos + 1);
    if let (Ok(literal), next) = parser::read_literal(tokens, pos) {
        if parser::at_mark(tokens, next, Mark::Comma) && next >= pos {
            lemma_body_named(tokens, next + 1, before.push(literal));
        }
    }
}

proof fn lemma_rule_named(tokens: Seq<TokenView>, pos: int)
    requires
        tokens_named(tokens),
    ensures
        parser::read_rule(tokens, pos).0 matches Ok(rule) ==> rule_named(rule),
{
    lemma_atom_named(tokens, pos);
    if let (Ok(head), after) = parser::read_atom(tokens, pos) {
        lemma_body_named(tokens, after + 1, Seq::empty());
    }
}

proof fn lemma_statement_named(tokens: Seq<TokenView>, pos: int, program: ProgramView)
    requires
        tokens_named(tokens),
        program_named(program),
    ensures
        program_named(parser::read_statement(tokens, pos, program).0),
{
    lemma_rule_named(tokens, pos);
    let after = parser::read_statement(tokens, pos, program).0;
    if pos + 2 < tokens.len() && 0 <= pos {
        assert(kind_named(tokens[pos + 2].kind));
    }
    assert forall|i: int| 0 <= i < after.rules.len() implies rule_named(#[trigger] after.rules[i]) by {
        if i < program.rules.len() {
            assert(after.rules[i] == program.rules[i]);
        }
    }
    assert forall|i: int| 0 <= i < after.declarations.len() implies is_name(
        (#[trigger] after.declarations[i]).predicate.0,
    ) by {
        if i < program.declarations.len() {
            assert(after.declarations[i] == program.declarations[i]);
        }
    }
    assert forall|i: int| 0 <= i < after.inputs.len() implies is_name(
        (#[trigger] after.inputs[i]).0,
    ) by {
        if i < program.inputs.len() {
            assert(after.inputs[i] == program.inputs[i]);
        }
    }
    assert forall|i: int| 0 <= i < after.outputs.len() implies is_name(
        (#[trigger] after.outputs[i]).0,
    ) by {
        if i < program.outputs.len() {
            assert(after.outputs[i] == program.outputs[i]);
        }
    }
}

proof fn lemma_statements_named(tokens: Seq<TokenView>, pos: int, program: ProgramView)
    requires
        tokens_named(tokens),
        program_named(program),
    ensures
        program_named(parser::read_statements(tokens, pos, program).0),
    decreases tokens.len() - pos,
{
    if 0 <= pos < tokens.len() {
        lemma_statement_named(tokens, pos, program);
        let (after, problems, next) = parser::read_statement(tokens, pos, program);
        if pos < next <= tokens.len() {
            lemma_statements_named(tokens, next, after);
        }
    }
}

/// What is read from a text, written and read again is the same program but for where its parts
/// stand, where every text in it is read back from between its quotes.
pub proof fn law_parsed_program_reads_back(source: Seq<char>)
    ensures
        program_named(parser::parsed(source).program),
        program_quotes_back(parser::parsed(source).program) ==> reads_back(
            parser::parsed(source).program,
        ),
{
    let tokens = lexer::lex_from(source, 0).0;
    lemma_lex_named(source, 0);
    lemma_statements_named(tokens, 0, parser::empty_program());
    law_written_program_reads_back(parser::parsed(source).program);
}

} // verus!
