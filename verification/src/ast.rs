//! Source programs as written, and resolved programs over catalog identifiers.
use vstd::prelude::*;
use vstd::string::*;

use crate::catalog::{PredicateId, ValueId};

verus! {

/// The views of a sequence of items, in order.
pub open spec fn views<T: View>(items: Seq<T>) -> Seq<T::V> {
    Seq::new(items.len(), |i: int| items[i]@)
}

/// Appending an item appends its view.
pub broadcast proof fn lemma_views_push<T: View>(items: Seq<T>, item: T)
    ensures
        #[trigger] views(items.push(item)) == views(items).push(item@),
{
    assert(views(items.push(item)) =~= views(items).push(item@));
}

/// A half-open range of byte offsets in a source text.
#[derive(Debug, Clone, Copy, PartialEq, Eq, Hash, Structural)]
pub struct Span {
    pub start: usize,
    pub end: usize,
}

impl Default for Span {
    fn default() -> (span: Self)
        ensures
            span == (Span { start: 0, end: 0 }),
    {
        Span { start: 0, end: 0 }
    }
}

impl Span {
    pub fn new(start: usize, end: usize) -> (span: Self)
        ensures
            span == (Span { start, end }),
    {
        Span { start, end }
    }

    /// The smallest span that covers two spans.
    pub open spec fn joined(self, other: Self) -> Self {
        Span {
            start: if self.start <= other.start {
                self.start
            } else {
                other.start
            },
            end: if self.end >= other.end {
                self.end
            } else {
                other.end
            },
        }
    }

    /// The smallest span that covers both spans.
    pub fn join(self, other: Self) -> (span: Self)
        ensures
            span == self.joined(other),
    {
        Span {
            start: if self.start <= other.start {
                self.start
            } else {
                other.start
            },
            end: if self.end >= other.end {
                self.end
            } else {
                other.end
            },
        }
    }
}

/// A value with the place in the source that it was read from.
#[derive(Debug, Clone, PartialEq, Eq)]
pub struct Spanned<T> {
    pub value: T,
    pub span: Span,
}

impl<T: View> View for Spanned<T> {
    type V = (T::V, Span);

    open spec fn view(&self) -> (T::V, Span) {
        (self.value@, self.span)
    }
}

impl<T> Spanned<T> {
    pub fn new(value: T, span: Span) -> (spanned: Self)
        ensures
            spanned == (Spanned { value, span }),
    {
        Spanned { value, span }
    }
}

/// A constant of the language, seen as plain data.
pub enum ConstantView {
    U32(u32),
    String(Seq<char>),
    Symbol(Seq<char>),
}

#[derive(Debug, Clone, PartialEq, Eq, Hash)]
pub enum SourceValue {
    U32(u32),
    String(String),
    Symbol(String),
}

impl View for SourceValue {
    type V = ConstantView;

    open spec fn view(&self) -> ConstantView {
        match self {
            SourceValue::U32(value) => ConstantView::U32(*value),
            SourceValue::String(value) => ConstantView::String(value@),
            SourceValue::Symbol(value) => ConstantView::Symbol(value@),
        }
    }
}

/// A term of a source atom, seen as plain data.
pub enum TermView {
    Variable(Seq<char>),
    Constant(ConstantView),
}

#[derive(Debug, Clone, PartialEq, Eq)]
pub enum SourceTerm {
    Variable(String),
    Constant(SourceValue),
}

impl View for SourceTerm {
    type V = TermView;

    open spec fn view(&self) -> TermView {
        match self {
            SourceTerm::Variable(name) => TermView::Variable(name@),
            SourceTerm::Constant(value) => TermView::Constant(value@),
        }
    }
}

/// A source atom, seen as plain data.
#[verifier::ext_equal]
pub struct AtomView {
    pub predicate: (Seq<char>, Span),
    pub terms: Seq<(TermView, Span)>,
    pub span: Span,
}

#[derive(Debug, Clone, PartialEq, Eq)]
pub struct SourceAtom {
    pub predicate: Spanned<String>,
    pub terms: Vec<Spanned<SourceTerm>>,
    pub span: Span,
}

impl View for SourceAtom {
    type V = AtomView;

    open spec fn view(&self) -> AtomView {
        AtomView { predicate: self.predicate@, terms: views(self.terms@), span: self.span }
    }
}

/// A source literal, seen as plain data.
#[verifier::ext_equal]
pub struct LiteralView {
    pub negated: bool,
    pub atom: AtomView,
    pub span: Span,
}

#[derive(Debug, Clone, PartialEq, Eq)]
pub struct SourceLiteral {
    pub negated: bool,
    pub atom: SourceAtom,
    pub span: Span,
}

impl View for SourceLiteral {
    type V = LiteralView;

    open spec fn view(&self) -> LiteralView {
        LiteralView { negated: self.negated, atom: self.atom@, span: self.span }
    }
}

/// A source rule, seen as plain data.
#[verifier::ext_equal]
pub struct RuleView {
    pub head: AtomView,
    pub body: Seq<LiteralView>,
    pub span: Span,
}

#[derive(Debug, Clone, PartialEq, Eq)]
pub struct SourceRule {
    pub head: SourceAtom,
    pub body: Vec<SourceLiteral>,
    pub span: Span,
}

impl View for SourceRule {
    type V = RuleView;

    open spec fn view(&self) -> RuleView {
        RuleView { head: self.head@, body: views(self.body@), span: self.span }
    }
}

impl SourceRule {
    /// A fact is a rule without body literals.
    pub fn is_fact(&self) -> (fact: bool)
        ensures
            fact == (self@.body.len() == 0),
    {
        self.body.len() == 0
    }
}

/// A `.decl` directive, seen as plain data: the predicate and its attribute count.
#[verifier::ext_equal]
pub struct DeclarationView {
    pub predicate: (Seq<char>, Span),
    pub arity: usize,
}

/// A `.decl` directive: a predicate name with the number of its attributes.
#[derive(Debug, Clone, PartialEq, Eq)]
pub struct SourceDeclaration {
    pub predicate: Spanned<String>,
    pub arity: usize,
}

impl View for SourceDeclaration {
    type V = DeclarationView;

    open spec fn view(&self) -> DeclarationView {
        DeclarationView { predicate: self.predicate@, arity: self.arity }
    }
}

/// A source program, seen as plain data.
#[verifier::ext_equal]
pub struct ProgramView {
    pub rules: Seq<RuleView>,
    pub declarations: Seq<DeclarationView>,
    pub inputs: Seq<(Seq<char>, Span)>,
    pub outputs: Seq<(Seq<char>, Span)>,
}

#[derive(Debug, Clone, PartialEq, Eq)]
pub struct SourceProgram {
    pub rules: Vec<SourceRule>,
    pub declarations: Vec<SourceDeclaration>,
    pub inputs: Vec<Spanned<String>>,
    pub outputs: Vec<Spanned<String>>,
}

impl View for SourceProgram {
    type V = ProgramView;

    open spec fn view(&self) -> ProgramView {
        ProgramView {
            rules: views(self.rules@),
            declarations: views(self.declarations@),
            inputs: views(self.inputs@),
            outputs: views(self.outputs@),
        }
    }
}

impl Default for SourceProgram {
    fn default() -> (program: Self)
        ensures
            program.rules@.len() == 0,
            program.declarations@.len() == 0,
            program.inputs@.len() == 0,
            program.outputs@.len() == 0,
    {
        SourceProgram {
            rules: Vec::new(),
            declarations: Vec::new(),
            inputs: Vec::new(),
            outputs: Vec::new(),
        }
    }
}

/// A variable of one rule, numbered in order of first occurrence.
#[derive(Debug, Clone, Copy, PartialEq, Eq, Hash, PartialOrd, Ord, Structural)]
pub struct VariableId(pub u32);

#[derive(Debug, Clone, Copy, PartialEq, Eq, Hash, Structural)]
pub enum ResolvedTerm {
    Variable(VariableId),
    Value(ValueId),
}

/// A resolved atom, seen as plain data.
#[verifier::ext_equal]
pub struct ResolvedAtomView {
    pub predicate: PredicateId,
    pub terms: Seq<ResolvedTerm>,
    pub span: Span,
}

#[derive(Debug, Clone, PartialEq, Eq)]
pub struct ResolvedAtom {
    pub predicate: PredicateId,
    pub terms: Vec<ResolvedTerm>,
    pub span: Span,
}

impl View for ResolvedAtom {
    type V = ResolvedAtomView;

    open spec fn view(&self) -> ResolvedAtomView {
        ResolvedAtomView { predicate: self.predicate, terms: self.terms@, span: self.span }
    }
}

/// A resolved literal, seen as plain data.
#[verifier::ext_equal]
pub struct ResolvedLiteralView {
    pub negated: bool,
    pub atom: ResolvedAtomView,
    pub span: Span,
}

#[derive(Debug, Clone, PartialEq, Eq)]
pub struct ResolvedLiteral {
    pub negated: bool,
    pub atom: ResolvedAtom,
    pub span: Span,
}

impl View for ResolvedLiteral {
    type V = ResolvedLiteralView;

    open spec fn view(&self) -> ResolvedLiteralView {
        ResolvedLiteralView { negated: self.negated, atom: self.atom@, span: self.span }
    }
}

/// A resolved rule, seen as plain data.
#[verifier::ext_equal]
pub struct ResolvedRuleView {
    pub head: ResolvedAtomView,
    pub body: Seq<ResolvedLiteralView>,
    pub variable_names: Seq<Seq<char>>,
    pub span: Span,
}

#[derive(Debug, Clone, PartialEq, Eq)]
pub struct ResolvedRule {
    pub head: ResolvedAtom,
    pub body: Vec<ResolvedLiteral>,
    pub variable_names: Vec<String>,
    pub span: Span,
}

impl View for ResolvedRule {
    type V = ResolvedRuleView;

    open spec fn view(&self) -> ResolvedRuleView {
        ResolvedRuleView {
            head: self.head@,
            body: views(self.body@),
            variable_names: views(self.variable_names@),
            span: self.span,
        }
    }
}

impl ResolvedRule {
    /// A fact is a rule without body literals.
    pub fn is_fact(&self) -> (fact: bool)
        ensures
            fact == (self@.body.len() == 0),
    {
        self.body.len() == 0
    }

    /// The name that a variable had in the source of this rule.
    pub fn variable_name(&self, id: VariableId) -> (name: Option<&str>)
        ensures
            name is Some <==> (id.0 as int) < self@.variable_names.len(),
            name matches Some(text) ==> text@ == self@.variable_names[id.0 as int],
    {
        let index: usize = id.0 as usize;
        if index < self.variable_names.len() {
            Some(self.variable_names[index].as_str())
        } else {
            None
        }
    }
}

/// A resolved program, seen as plain data.
#[verifier::ext_equal]
pub struct ResolvedProgramView {
    pub rules: Seq<ResolvedRuleView>,
    pub declarations: Seq<PredicateId>,
    pub outputs: Seq<PredicateId>,
}

#[derive(Debug, Clone, PartialEq, Eq)]
pub struct ResolvedProgram {
    pub rules: Vec<ResolvedRule>,
    pub declarations: Vec<PredicateId>,
    pub outputs: Vec<PredicateId>,
}

impl View for ResolvedProgram {
    type V = ResolvedProgramView;

    open spec fn view(&self) -> ResolvedProgramView {
        ResolvedProgramView {
            rules: views(self.rules@),
            declarations: self.declarations@,
            outputs: self.outputs@,
        }
    }
}

impl Default for ResolvedProgram {
    fn default() -> (program: Self)
        ensures
            program.rules@.len() == 0,
            program.declarations@.len() == 0,
            program.outputs@.len() == 0,
    {
        ResolvedProgram { rules: Vec::new(), declarations: Vec::new(), outputs: Vec::new() }
    }
}

} // verus!
