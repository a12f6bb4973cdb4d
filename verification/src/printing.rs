//! How programs, facts and summaries are written.
use vstd::prelude::*;

use crate::ast;
use crate::ast::{
    AtomView, ConstantView, DeclarationView, LiteralView, ProgramView, RuleView, SourceAtom,
    SourceDeclaration, SourceLiteral, SourceProgram, SourceRule, SourceTerm, SourceValue, Span,
    Spanned, TermView,
};
use crate::catalog::InternedValue;
use crate::database::{QueryResult, RunSummary};
use crate::execution_general;
use crate::execution_general::GeneralSccSummary;
use crate::text;
use crate::text::{decimal_text, join_texts, quote};

verus! {

/// How a constant is written: numbers in decimal, texts quoted, symbols with an apostrophe.
pub open spec fn constant_text(value: ConstantView) -> Seq<char> {
    match value {
        ConstantView::U32(value) => text::decimal(value as nat),
        ConstantView::String(value) => text::quoted(value),
        ConstantView::Symbol(value) => "'"@ + value,
    }
}

pub open spec fn term_text(term: TermView) -> Seq<char> {
    match term {
        TermView::Variable(name) => name,
        TermView::Constant(value) => constant_text(value),
    }
}

pub open spec fn atom_text(atom: AtomView) -> Seq<char> {
    atom.predicate.0 + "("@ + text::joined(
        Seq::new(atom.terms.len(), |i: int| term_text(atom.terms[i].0)),
        ", "@,
    ) + ")"@
}

pub open spec fn literal_text(literal: LiteralView) -> Seq<char> {
    if literal.negated {
        "!"@ + atom_text(literal.atom)
    } else {
        atom_text(literal.atom)
    }
}

pub open spec fn rule_text(rule: RuleView) -> Seq<char> {
    if rule.body.len() == 0 {
        atom_text(rule.head) + "."@
    } else {
        atom_text(rule.head) + " :- "@ + text::joined(
            Seq::new(rule.body.len(), |i: int| literal_text(rule.body[i])),
            ", "@,
        ) + "."@
    }
}

/// Texts one after the other, each with a line feed behind it.
pub open spec fn lined(lines: Seq<Seq<char>>) -> Seq<char>
    decreases lines.len(),
{
    if lines.len() == 0 {
        Seq::empty()
    } else {
        lined(lines.drop_last()) + lines.last() + "\n"@
    }
}

/// A declaration. Attributes are counted, not kept, so that each is written by its number.
pub open spec fn declaration_text(declaration: DeclarationView) -> Seq<char> {
    ".decl "@ + declaration.predicate.0 + "("@ + text::joined(
        Seq::new(declaration.arity as nat, |i: int| "x"@ + text::decimal(i as nat) + ": any"@),
        ", "@,
    ) + ")"@
}

/// The lines of the declarations of a program.
pub open spec fn declaration_lines(program: ProgramView) -> Seq<Seq<char>> {
    Seq::new(program.declarations.len(), |i: int| declaration_text(program.declarations[i]))
}

/// The lines of directives about names.
pub open spec fn name_lines(directive: Seq<char>, names: Seq<(Seq<char>, Span)>) -> Seq<Seq<char>> {
    Seq::new(names.len(), |i: int| directive + names[i].0)
}

/// The lines of the rules of a program.
pub open spec fn rule_lines(program: ProgramView) -> Seq<Seq<char>> {
    Seq::new(program.rules.len(), |i: int| rule_text(program.rules[i]))
}

/// A program: its declarations, its inputs, its rules, then its outputs, one to a line.
pub open spec fn program_text(program: ProgramView) -> Seq<char> {
    lined(declaration_lines(program)) + lined(name_lines(".input "@, program.inputs)) + lined(
        rule_lines(program),
    ) + lined(name_lines(".output "@, program.outputs))
}

/// Adds the next of some expected texts.
fn push_text(texts: &mut Vec<String>, text: String, Ghost(expected): Ghost<Seq<Seq<char>>>, Ghost(
    i,
): Ghost<int>)
    requires
        0 <= i < expected.len(),
        text::text_views(old(texts)@) == expected.take(i),
        text@ == expected[i],
    ensures
        text::text_views(final(texts)@) == expected.take(i + 1),
{
    let ghost before = texts@;
    texts.push(text);
    proof {
        assert(text::text_views(texts@) =~= text::text_views(before).push(text@));
        assert(expected.take(i + 1) =~= expected.take(i).push(expected[i]));
    }
}

fn symbol_text(name: &str) -> (result: String)
    ensures
        result@ == "'"@ + name@,
{
    let mut result = "'".to_owned();
    result.append(name);
    result
}

impl SourceValue {
    pub fn source_text(&self) -> (result: String)
        ensures
            result@ == constant_text(self@),
    {
        match self {
            SourceValue::U32(value) => decimal_text(*value as usize),
            SourceValue::String(value) => quote(value.as_str()),
            SourceValue::Symbol(value) => symbol_text(value.as_str()),
        }
    }
}

impl InternedValue {
    pub fn source_text(&self) -> (result: String)
        ensures
            result@ == constant_text(self@),
    {
        match self {
            InternedValue::U32(value) => decimal_text(*value as usize),
            InternedValue::String(value) => quote(value.as_str()),
            InternedValue::Symbol(value) => symbol_text(value.as_str()),
        }
    }
}

impl SourceTerm {
    pub fn source_text(&self) -> (result: String)
        ensures
            result@ == term_text(self@),
    {
        match self {
            SourceTerm::Variable(name) => name.clone(),
            SourceTerm::Constant(value) => value.source_text(),
        }
    }
}

impl SourceAtom {
    pub fn source_text(&self) -> (result: String)
        ensures
            result@ == atom_text(self@),
    {
        let ghost expected = Seq::new(self@.terms.len(), |i: int| term_text(self@.terms[i].0));
        let mut terms: Vec<String> = Vec::new();
        let mut i: usize = 0;
        while i < self.terms.len()
            invariant
                i <= self.terms@.len(),
                expected == Seq::new(self@.terms.len(), |k: int| term_text(self@.terms[k].0)),
                text::text_views(terms@) == expected.take(i as int),
            decreases self.terms@.len() - i,
        {
            assert(self@.terms[i as int] == self.terms@[i as int]@);
            let term = self.terms[i].value.source_text();
            push_text(&mut terms, term, Ghost(expected), Ghost(i as int));
            i += 1;
        }
        assert(expected.take(expected.len() as int) =~= expected);
        let mut result = self.predicate.value.clone();
        result.append("(");
        let listed = join_texts(&terms, ", ");
        result.append(listed.as_str());
        result.append(")");
        result
    }
}

impl SourceLiteral {
    pub fn source_text(&self) -> (result: String)
        ensures
            result@ == literal_text(self@),
    {
        let atom = self.atom.source_text();
        if self.negated {
            let mut result = "!".to_owned();
            result.append(atom.as_str());
            result
        } else {
            atom
        }
    }
}

impl SourceRule {
    pub fn source_text(&self) -> (result: String)
        ensures
            result@ == rule_text(self@),
    {
        let mut result = self.head.source_text();
        if self.body.len() > 0 {
            let ghost expected = Seq::new(self@.body.len(), |i: int| literal_text(self@.body[i]));
            let mut literals: Vec<String> = Vec::new();
            let mut i: usize = 0;
            while i < self.body.len()
                invariant
                    i <= self.body@.len(),
                    expected == Seq::new(self@.body.len(), |k: int| literal_text(self@.body[k])),
                    text::text_views(literals@) == expected.take(i as int),
                decreases self.body@.len() - i,
            {
                assert(self@.body[i as int] == self.body@[i as int]@);
                let literal = self.body[i].source_text();
                push_text(&mut literals, literal, Ghost(expected), Ghost(i as int));
                i += 1;
            }
            assert(expected.take(expected.len() as int) =~= expected);
            result.append(" :- ");
            let listed = join_texts(&literals, ", ");
            result.append(listed.as_str());
        }
        result.append(".");
        result
    }
}

fn append_line(result: &mut String, line: &str, Ghost(lines): Ghost<Seq<Seq<char>>>, Ghost(
    before,
): Ghost<Seq<char>>)
    requires
        old(result)@ == before + lined(lines),
    ensures
        final(result)@ == before + lined(lines.push(line@)),
{
    result.append(line);
    result.append("\n");
    proof {
        assert(lines.push(line@).drop_last() =~= lines);
        assert(result@ =~= before + lined(lines.push(line@)));
    }
}

impl SourceDeclaration {
    pub fn source_text(&self) -> (result: String)
        ensures
            result@ == declaration_text(self@),
    {
        let ghost expected = Seq::new(
            self.arity as nat,
            |i: int| "x"@ + text::decimal(i as nat) + ": any"@,
        );
        let mut attributes: Vec<String> = Vec::new();
        let mut i: usize = 0;
        while i < self.arity
            invariant
                i <= self.arity,
                expected == Seq::new(
                    self.arity as nat,
                    |k: int| "x"@ + text::decimal(k as nat) + ": any"@,
                ),
                text::text_views(attributes@) == expected.take(i as int),
            decreases self.arity - i,
        {
            let mut attribute = "x".to_owned();
            let number = decimal_text(i);
            attribute.append(number.as_str());
            attribute.append(": any");
            push_text(&mut attributes, attribute, Ghost(expected), Ghost(i as int));
            i += 1;
        }
        assert(expected.take(expected.len() as int) =~= expected);
        let mut result = ".decl ".to_owned();
        result.append(self.predicate.value.as_str());
        result.append("(");
        let listed = join_texts(&attributes, ", ");
        result.append(listed.as_str());
        result.append(")");
        result
    }
}

/// Adds a line for each name.
fn append_names(result: &mut String, directive: &str, names: &Vec<Spanned<String>>)
    ensures
        final(result)@ == old(result)@ + lined(name_lines(directive@, ast::views(names@))),
{
    let ghost before = result@;
    let ghost lines = name_lines(directive@, ast::views(names@));
    let mut i: usize = 0;
    proof {
        assert(lines.take(0) =~= Seq::<Seq<char>>::empty());
        assert(before + lined(lines.take(0)) =~= before);
    }
    while i < names.len()
        invariant
            i <= names@.len(),
            lines == name_lines(directive@, ast::views(names@)),
            result@ == before + lined(lines.take(i as int)),
        decreases names@.len() - i,
    {
        assert(ast::views(names@)[i as int] == names@[i as int]@);
        let mut line = directive.to_owned();
        line.append(names[i].value.as_str());
        append_line(result, line.as_str(), Ghost(lines.take(i as int)), Ghost(before));
        assert(lines.take(i as int).push(line@) =~= lines.take(i + 1));
        i += 1;
    }
    assert(lines.take(lines.len() as int) =~= lines);
}

impl SourceProgram {
    pub fn source_text(&self) -> (result: String)
        ensures
            result@ == program_text(self@),
    {
        let ghost declared = declaration_lines(self@);
        let ghost none = Seq::<char>::empty();
        let mut result = String::new();
        let mut d: usize = 0;
        proof {
            assert(declared.take(0) =~= Seq::<Seq<char>>::empty());
            assert(none + lined(declared.take(0)) =~= none);
        }
        while d < self.declarations.len()
            invariant
                d <= self.declarations@.len(),
                declared == declaration_lines(self@),
                none == Seq::<char>::empty(),
                result@ == none + lined(declared.take(d as int)),
            decreases self.declarations@.len() - d,
        {
            assert(self@.declarations[d as int] == self.declarations@[d as int]@);
            let line = self.declarations[d].source_text();
            append_line(
                &mut result,
                line.as_str(),
                Ghost(declared.take(d as int)),
                Ghost(none),
            );
            assert(declared.take(d as int).push(line@) =~= declared.take(d + 1));
            d += 1;
        }
        proof {
            assert(declared.take(declared.len() as int) =~= declared);
            assert(none + lined(declared) =~= lined(declared));
        }
        append_names(&mut result, ".input ", &self.inputs);
        let ghost rules = rule_lines(self@);
        let ghost before = result@;
        let mut i: usize = 0;
        proof {
            assert(rules.take(0) =~= Seq::<Seq<char>>::empty());
            assert(before + lined(rules.take(0)) =~= before);
        }
        while i < self.rules.len()
            invariant
                i <= self.rules@.len(),
                rules == rule_lines(self@),
                result@ == before + lined(rules.take(i as int)),
            decreases self.rules@.len() - i,
        {
            assert(self@.rules[i as int] == self.rules@[i as int]@);
            let line = self.rules[i].source_text();
            append_line(&mut result, line.as_str(), Ghost(rules.take(i as int)), Ghost(before));
            assert(rules.take(i as int).push(line@) =~= rules.take(i + 1));
            i += 1;
        }
        assert(rules.take(rules.len() as int) =~= rules);
        append_names(&mut result, ".output ", &self.outputs);
        result
    }
}

/// A fact as it is written in a program.
pub open spec fn fact_text(predicate: Seq<char>, values: Seq<ConstantView>) -> Seq<char> {
    predicate + "("@ + text::joined(
        Seq::new(values.len(), |i: int| constant_text(values[i])),
        ", "@,
    ) + ")."@
}

fn write_fact(predicate: &str, values: &Vec<InternedValue>) -> (result: String)
    ensures
        result@ == fact_text(predicate@, ast::views(values@)),
{
    let ghost views = ast::views(values@);
    let ghost expected = Seq::new(views.len(), |i: int| constant_text(views[i]));
    let mut texts: Vec<String> = Vec::new();
    let mut i: usize = 0;
    while i < values.len()
        invariant
            i <= values@.len(),
            views == ast::views(values@),
            expected == Seq::new(views.len(), |k: int| constant_text(views[k])),
            text::text_views(texts@) == expected.take(i as int),
        decreases values@.len() - i,
    {
        assert(views[i as int] == values@[i as int]@);
        let value = values[i].source_text();
        push_text(&mut texts, value, Ghost(expected), Ghost(i as int));
        i += 1;
    }
    assert(expected.take(expected.len() as int) =~= expected);
    let mut result = predicate.to_owned();
    result.append("(");
    let listed = join_texts(&texts, ", ");
    result.append(listed.as_str());
    result.append(").");
    result
}

impl QueryResult {
    /// The tuples as facts of a program, one for each line.
    pub fn fact_lines(&self) -> (lines: Vec<String>)
        ensures
            lines@.len() == self.rows@.len(),
            forall|i: int|
                0 <= i < lines@.len() ==> (#[trigger] lines@[i])@ == fact_text(
                    self.predicate@,
                    ast::views(self.rows@[i]@),
                ),
    {
        let mut lines: Vec<String> = Vec::new();
        let mut i: usize = 0;
        while i < self.rows.len()
            invariant
                i <= self.rows@.len(),
                lines@.len() == i,
                forall|k: int|
                    0 <= k < i ==> (#[trigger] lines@[k])@ == fact_text(
                        self.predicate@,
                        ast::views(self.rows@[k]@),
                    ),
            decreases self.rows@.len() - i,
        {
            let line = write_fact(self.predicate.as_str(), &self.rows[i]);
            lines.push(line);
            i += 1;
        }
        lines
    }
}

/// How many rounds some components took.
pub open spec fn round_total(sccs: Seq<GeneralSccSummary>) -> nat
    decreases sccs.len(),
{
    if sccs.len() == 0 {
        0
    } else {
        round_total(sccs.drop_last()) + sccs.last().iterations as nat
    }
}

impl RunSummary {
    /// What a run reports when it is done. A sum of rounds beyond a machine number is given as the
    /// largest one.
    pub fn report(&self) -> (result: String)
        ensures
            result@ == "completed "@ + text::decimal(self.sccs@.len()) + " components in "@
                + text::decimal(execution_general::capped(round_total(self.sccs@)) as nat)
                + " fixpoint rounds"@,
    {
        let mut rounds: usize = 0;
        let mut i: usize = 0;
        assert(self.sccs@.take(0) =~= Seq::<GeneralSccSummary>::empty());
        while i < self.sccs.len()
            invariant
                i <= self.sccs@.len(),
                rounds == execution_general::capped(round_total(self.sccs@.take(i as int))),
            decreases self.sccs@.len() - i,
        {
            assert(self.sccs@.take(i + 1).drop_last() =~= self.sccs@.take(i as int));
            rounds = rounds.saturating_add(self.sccs[i].iterations);
            i += 1;
        }
        assert(self.sccs@.take(self.sccs@.len() as int) =~= self.sccs@);
        let mut result = "completed ".to_owned();
        let components = decimal_text(self.sccs.len());
        result.append(components.as_str());
        result.append(" components in ");
        let rounds = decimal_text(rounds);
        result.append(rounds.as_str());
        result.append(" fixpoint rounds");
        result
    }
}

} // verus!
