//! Resolution of names, and the checks of arity and rule safety.
use vstd::prelude::*;
use vstd::string::*;

use crate::ast;
use crate::ast::{
    AtomView, ConstantView, DeclarationView, LiteralView, ProgramView, ResolvedAtom,
    ResolvedAtomView, ResolvedLiteral, ResolvedLiteralView, ResolvedProgram, ResolvedProgramView,
    ResolvedRule, ResolvedRuleView, ResolvedTerm, RuleView, SourceAtom, SourceProgram, SourceRule,
    SourceTerm, SourceValue, Span, Spanned, TermView, VariableId,
};
use crate::catalog;
use crate::catalog::{
    CatalogError, CatalogErrorView, CatalogView, InternedValue, PredicateId, ProgramCatalog,
    ValueId,
};
use crate::lexer;
use crate::lexer::{Diagnostic, DiagnosticView};
use crate::text::same_text;

verus! {

/// What resolving a program gives, seen as plain data.
#[verifier::ext_equal]
pub struct ResolveView {
    pub program: ResolvedProgramView,
    pub diagnostics: Seq<DiagnosticView>,
}

/// A resolved program with the problems found in it.
#[derive(Debug, Clone, PartialEq, Eq)]
pub struct ResolveOutput {
    pub program: ResolvedProgram,
    pub diagnostics: Vec<Diagnostic>,
}

impl View for ResolveOutput {
    type V = ResolveView;

    open spec fn view(&self) -> ResolveView {
        ResolveView { program: self.program@, diagnostics: ast::views(self.diagnostics@) }
    }
}

impl ResolveOutput {
    pub fn is_success(&self) -> (success: bool)
        ensures
            success == (self@.diagnostics.len() == 0),
    {
        self.diagnostics.len() == 0
    }
}

/// The position of a variable name among those of a rule.
pub open spec fn find_variable(names: Seq<Seq<char>>, name: Seq<char>) -> Option<int>
    decreases names.len(),
{
    if names.len() == 0 {
        None
    } else {
        match find_variable(names.drop_last(), name) {
            Some(i) => Some(i),
            None => if names.last() == name {
                Some(names.len() - 1)
            } else {
                None
            },
        }
    }
}

/// The variable names of a rule with a name among them, and its position. Every wildcard `_` is a
/// variable of its own.
pub open spec fn with_variable(
    names: Seq<Seq<char>>,
    name: Seq<char>,
) -> Result<(Seq<Seq<char>>, int), CatalogErrorView> {
    if name != "_"@ && find_variable(names, name) is Some {
        Ok((names, find_variable(names, name)->0))
    } else if names.len() > u32::MAX {
        Err(CatalogErrorView::IdSpaceExhausted { kind: "variable"@ })
    } else {
        Ok((names.push(name), names.len() as int))
    }
}

/// Terms resolved so far: the values and variable names known after them.
#[verifier::ext_equal]
pub struct TermsStep {
    pub values: Seq<ConstantView>,
    pub names: Seq<Seq<char>>,
    pub terms: Seq<ResolvedTerm>,
    pub problems: Seq<DiagnosticView>,
}

/// Resolves one more term.
pub open spec fn resolve_next(step: TermsStep, term: (TermView, Span)) -> TermsStep {
    match term.0 {
        TermView::Variable(name) => match with_variable(step.names, name) {
            Ok((names, i)) => TermsStep {
                names,
                terms: step.terms.push(ResolvedTerm::Variable(VariableId(i as u32))),
                ..step
            },
            Err(error) => TermsStep {
                problems: step.problems.push(lexer::problem(catalog::catalog_error_text(error), term.1)),
                ..step
            },
        },
        TermView::Constant(value) => match catalog::with_value(step.values, value) {
            Ok((values, i)) => TermsStep {
                values,
                terms: step.terms.push(ResolvedTerm::Value(ValueId(i as u32))),
                ..step
            },
            Err(error) => TermsStep {
                problems: step.problems.push(lexer::problem(catalog::catalog_error_text(error), term.1)),
                ..step
            },
        },
    }
}

/// Resolves terms in order.
pub open spec fn resolve_terms(
    values: Seq<ConstantView>,
    names: Seq<Seq<char>>,
    terms: Seq<(TermView, Span)>,
) -> TermsStep
    decreases terms.len(),
{
    if terms.len() == 0 {
        TermsStep { values, names, terms: Seq::empty(), problems: Seq::empty() }
    } else {
        resolve_next(resolve_terms(values, names, terms.drop_last()), terms.last())
    }
}

/// An atom resolved, if its predicate has the right arity.
#[verifier::ext_equal]
pub struct AtomStep {
    pub catalog: CatalogView,
    pub names: Seq<Seq<char>>,
    pub atom: Option<ResolvedAtomView>,
    pub problems: Seq<DiagnosticView>,
}

/// Resolves an atom: its predicate, then its terms.
pub open spec fn resolve_atom_view(
    catalog: CatalogView,
    names: Seq<Seq<char>>,
    atom: AtomView,
) -> AtomStep {
    let step = resolve_terms(catalog.values, names, atom.terms);
    match catalog::with_arity(catalog.predicates, atom.predicate.0, atom.terms.len() as usize) {
        Ok((predicates, i)) => AtomStep {
            catalog: CatalogView { predicates, values: step.values },
            names: step.names,
            atom: Some(
                ResolvedAtomView {
                    predicate: PredicateId(i as u32),
                    terms: step.terms,
                    span: atom.span,
                },
            ),
            problems: step.problems,
        },
        Err(error) => AtomStep {
            catalog: CatalogView { predicates: catalog.predicates, values: step.values },
            names: step.names,
            atom: None,
            problems: seq![lexer::problem(catalog::catalog_error_text(error), atom.predicate.1)] + step.problems,
        },
    }
}

/// Body literals resolved so far.
#[verifier::ext_equal]
pub struct BodyStep {
    pub catalog: CatalogView,
    pub names: Seq<Seq<char>>,
    pub body: Seq<ResolvedLiteralView>,
    pub problems: Seq<DiagnosticView>,
}

/// Resolves body literals in order.
pub open spec fn resolve_body(
    catalog: CatalogView,
    names: Seq<Seq<char>>,
    body: Seq<LiteralView>,
) -> BodyStep
    decreases body.len(),
{
    if body.len() == 0 {
        BodyStep {
            catalog,
            names,
            body: Seq::empty(),
            problems: Seq::empty(),
        }
    } else {
        let earlier = resolve_body(catalog, names, body.drop_last());
        let literal = body.last();
        let step = resolve_atom_view(earlier.catalog, earlier.names, literal.atom);
        BodyStep {
            catalog: step.catalog,
            names: step.names,
            body: match step.atom {
                Some(atom) => earlier.body.push(
                    ResolvedLiteralView { negated: literal.negated, atom, span: literal.span },
                ),
                None => earlier.body,
            },
            problems: earlier.problems + step.problems,
        }
    }
}

/// Whether a positive literal uses a variable.
pub open spec fn binds(body: Seq<ResolvedLiteralView>, variable: VariableId) -> bool {
    exists|j: int|
        0 <= j < body.len() && !(#[trigger] body[j]).negated && body[j].atom.terms.contains(
            ResolvedTerm::Variable(variable),
        )
}

/// The problems of variables among the first terms that no positive literal binds.
pub open spec fn unbound_problems(
    terms: Seq<ResolvedTerm>,
    source: Seq<(TermView, Span)>,
    body: Seq<ResolvedLiteralView>,
    names: Seq<Seq<char>>,
    prefix: Seq<char>,
    suffix: Seq<char>,
    count: int,
) -> Seq<DiagnosticView>
    decreases count,
{
    if count <= 0 {
        Seq::empty()
    } else {
        let earlier = unbound_problems(terms, source, body, names, prefix, suffix, count - 1);
        match terms[count - 1] {
            ResolvedTerm::Variable(variable) => if !binds(body, variable) {
                earlier.push(
                    lexer::problem(prefix + names[variable.0 as int] + suffix, source[count - 1].1),
                )
            } else {
                earlier
            },
            ResolvedTerm::Value(_) => earlier,
        }
    }
}

pub open spec fn least(a: nat, b: nat) -> int {
    if a <= b {
        a as int
    } else {
        b as int
    }
}

/// The problems of head variables that no positive literal binds.
pub open spec fn head_problems(
    terms: Seq<ResolvedTerm>,
    source: Seq<(TermView, Span)>,
    body: Seq<ResolvedLiteralView>,
    names: Seq<Seq<char>>,
) -> Seq<DiagnosticView> {
    unbound_problems(
        terms,
        source,
        body,
        names,
        "head variable "@,
        " is not bound by a positive body atom"@,
        least(terms.len(), source.len()),
    )
}

/// The problems of variables in one negated literal.
pub open spec fn literal_problems(
    literal: ResolvedLiteralView,
    source: LiteralView,
    body: Seq<ResolvedLiteralView>,
    names: Seq<Seq<char>>,
) -> Seq<DiagnosticView> {
    if literal.negated {
        unbound_problems(
            literal.atom.terms,
            source.atom.terms,
            body,
            names,
            "variable "@,
            " in a negated atom is not bound by a positive body atom"@,
            least(literal.atom.terms.len(), source.atom.terms.len()),
        )
    } else {
        Seq::empty()
    }
}

/// The problems of variables in the first literals, where those are negated. A literal's problems
/// stand where the terms of the source literal at the same place do, as far as that has terms.
pub open spec fn negation_problems(
    body: Seq<ResolvedLiteralView>,
    source: Seq<LiteralView>,
    names: Seq<Seq<char>>,
    count: int,
) -> Seq<DiagnosticView>
    decreases count,
{
    if count <= 0 {
        Seq::empty()
    } else {
        negation_problems(body, source, names, count - 1) + literal_problems(
            body[count - 1],
            source[count - 1],
            body,
            names,
        )
    }
}

/// A rule resolved, or its problems, and the catalog after it.
#[verifier::ext_equal]
pub struct RuleStep {
    pub catalog: CatalogView,
    pub rule: Option<ResolvedRuleView>,
    pub problems: Seq<DiagnosticView>,
}

/// Resolves a rule: its head, its body, then the checks that every variable of the head and of
/// negated literals is bound.
pub open spec fn resolve_rule_view(catalog: CatalogView, rule: RuleView) -> RuleStep {
    let head = resolve_atom_view(catalog, Seq::empty(), rule.head);
    let body = resolve_body(head.catalog, head.names, rule.body);
    let unbound = match head.atom {
        Some(atom) => head_problems(atom.terms, rule.head.terms, body.body, body.names),
        None => Seq::empty(),
    };
    let problems = head.problems + body.problems + unbound + negation_problems(
        body.body,
        rule.body,
        body.names,
        body.body.len() as int,
    );
    RuleStep {
        catalog: body.catalog,
        rule: match head.atom {
            Some(atom) => if problems.len() == 0 {
                Some(
                    ResolvedRuleView {
                        head: atom,
                        body: body.body,
                        variable_names: body.names,
                        span: rule.span,
                    },
                )
            } else {
                None
            },
            None => None,
        },
        problems,
    }
}

/// Names of predicates resolved so far.
#[verifier::ext_equal]
pub struct NamesStep {
    pub ids: Seq<PredicateId>,
    pub problems: Seq<DiagnosticView>,
}

/// Declarations and rules resolved so far.
#[verifier::ext_equal]
pub struct StatementsStep {
    pub catalog: CatalogView,
    pub declared: Seq<PredicateId>,
    pub rules: Seq<ResolvedRuleView>,
    pub problems: Seq<DiagnosticView>,
}

/// Declares one more predicate.
pub open spec fn with_declaration(
    step: StatementsStep,
    declaration: DeclarationView,
) -> StatementsStep {
    match catalog::with_arity(
        step.catalog.predicates,
        declaration.predicate.0,
        declaration.arity,
    ) {
        Ok((predicates, i)) => StatementsStep {
            catalog: CatalogView { predicates, values: step.catalog.values },
            declared: step.declared.push(PredicateId(i as u32)),
            ..step
        },
        Err(error) => StatementsStep {
            problems: step.problems.push(
                lexer::problem(catalog::catalog_error_text(error), declaration.predicate.1),
            ),
            ..step
        },
    }
}

/// Resolves one more rule, which is left out if it has problems.
pub open spec fn with_source_rule(step: StatementsStep, rule: RuleView) -> StatementsStep {
    let own = resolve_rule_view(step.catalog, rule);
    StatementsStep {
        catalog: own.catalog,
        declared: step.declared,
        rules: match own.rule {
            Some(found) => step.rules.push(found),
            None => step.rules,
        },
        problems: step.problems + own.problems,
    }
}

/// Whether a declaration stands before a rule.
pub open spec fn declared_before(declaration: DeclarationView, rule: RuleView) -> bool {
    declaration.predicate.1.start <= rule.span.start
}

/// Resolves declarations and rules from some on, in the order in which they stand in the text: the
/// first statement that mentions a predicate sets its arity.
pub open spec fn resolve_statements(
    step: StatementsStep,
    source: ProgramView,
    d: int,
    r: int,
) -> StatementsStep
    decreases source.declarations.len() - d + source.rules.len() - r,
{
    if d < 0 || d > source.declarations.len() || r < 0 || r > source.rules.len() {
        step
    } else if d < source.declarations.len() && (r == source.rules.len() || declared_before(
        source.declarations[d],
        source.rules[r],
    )) {
        resolve_statements(with_declaration(step, source.declarations[d]), source, d + 1, r)
    } else if r < source.rules.len() {
        resolve_statements(with_source_rule(step, source.rules[r]), source, d, r + 1)
    } else {
        step
    }
}

/// The declarations and rules of a program, resolved.
pub open spec fn all_statements(catalog: CatalogView, source: ProgramView) -> StatementsStep {
    resolve_statements(
        StatementsStep {
            catalog,
            declared: Seq::empty(),
            rules: Seq::empty(),
            problems: Seq::empty(),
        },
        source,
        0,
        0,
    )
}

/// Whether a rule with a body derives a predicate.
pub open spec fn derives_name(rules: Seq<RuleView>, name: Seq<char>) -> bool {
    exists|i: int|
        0 <= i < rules.len() && (#[trigger] rules[i]).body.len() > 0 && rules[i].head.predicate.0
            == name
}

/// Whether a program declares a predicate.
pub open spec fn declares_name(declarations: Seq<DeclarationView>, name: Seq<char>) -> bool {
    exists|i: int|
        0 <= i < declarations.len() && (#[trigger] declarations[i]).predicate.0 == name
}

/// The problems of inputs: each must be declared, and no rule may derive it.
pub open spec fn input_problems(
    source: ProgramView,
    inputs: Seq<(Seq<char>, Span)>,
) -> Seq<DiagnosticView>
    decreases inputs.len(),
{
    if inputs.len() == 0 {
        Seq::empty()
    } else {
        let earlier = input_problems(source, inputs.drop_last());
        let (name, span) = inputs.last();
        if !declares_name(source.declarations, name) {
            earlier.push(lexer::problem("input predicate "@ + name + " is not declared"@, span))
        } else if derives_name(source.rules, name) {
            earlier.push(lexer::problem("input predicate "@ + name + " is derived by a rule"@, span))
        } else {
            earlier
        }
    }
}

/// Looks up output predicates in order; each must have an arity.
pub open spec fn resolve_outputs(
    catalog: CatalogView,
    outputs: Seq<(Seq<char>, Span)>,
) -> NamesStep
    decreases outputs.len(),
{
    if outputs.len() == 0 {
        NamesStep { ids: Seq::empty(), problems: Seq::empty() }
    } else {
        let earlier = resolve_outputs(catalog, outputs.drop_last());
        let (name, span) = outputs.last();
        match catalog::find_name(catalog.predicates, name) {
            Some(i) => if catalog.predicates[i].1 is Some {
                NamesStep { ids: earlier.ids.push(PredicateId(i as u32)), ..earlier }
            } else {
                NamesStep {
                    problems: earlier.problems.push(
                        lexer::problem("output predicate "@ + name + " is not defined"@, span),
                    ),
                    ..earlier
                }
            },
            None => NamesStep {
                problems: earlier.problems.push(
                    lexer::problem("output predicate "@ + name + " is not defined"@, span),
                ),
                ..earlier
            },
        }
    }
}

/// A resolved program with its problems, and the catalog after it.
pub open spec fn resolved(
    catalog: CatalogView,
    source: ProgramView,
) -> (ResolveView, CatalogView) {
    let step = all_statements(catalog, source);
    let outputs = resolve_outputs(step.catalog, source.outputs);
    (
        ResolveView {
            program: ResolvedProgramView {
                rules: step.rules,
                declarations: step.declared,
                outputs: outputs.ids,
            },
            diagnostics: step.problems + input_problems(source, source.inputs) + outputs.problems,
        },
        step.catalog,
    )
}

/// Variables of a rule, numbered in order of first occurrence.
struct RuleContext {
    variable_names: Vec<String>,
}

impl RuleContext {
    spec fn names(&self) -> Seq<Seq<char>> {
        ast::views(self.variable_names@)
    }

    fn variable(&mut self, name: &str) -> (result: Result<VariableId, CatalogError>)
        requires
            old(self).names().len() <= u32::MAX + 1,
        ensures
            final(self).names().len() <= u32::MAX + 1,
            match with_variable(old(self).names(), name@) {
                Ok((names, i)) => result == Ok::<VariableId, CatalogError>(VariableId(i as u32))
                    && final(self).names() == names,
                Err(error) => result is Err && result->Err_0@ == error && final(self).names()
                    == old(self).names(),
            },
    {
        let ghost names = self.names();
        if !same_text(name, "_") {
            let mut i: usize = 0;
            assert(names.take(0) =~= Seq::empty());
            while i < self.variable_names.len()
                invariant
                    i <= self.variable_names@.len(),
                    names == self.names(),
                    names == old(self).names(),
                    names.len() <= u32::MAX + 1,
                    name@ != "_"@,
                    find_variable(names.take(i as int), name@) is None,
                decreases self.variable_names@.len() - i,
            {
                assert(names.take(i + 1).drop_last() =~= names.take(i as int));
                assert(names[i as int] == self.variable_names@[i as int]@);
                if same_text(self.variable_names[i].as_str(), name) {
                    proof {
                        lemma_find_variable_prefix(names, name@, i + 1);
                    }
                    return Ok(VariableId(i as u32));
                }
                i += 1;
            }
            assert(names.take(names.len() as int) =~= names);
        }
        let count: usize = self.variable_names.len();
        if count > u32::MAX as usize {
            return Err(CatalogError::IdSpaceExhausted { kind: "variable" });
        }
        self.variable_names.push(name.to_owned());
        assert(self.names() =~= names.push(name@));
        Ok(VariableId(count as u32))
    }
}

/// What a prefix holds is found in the whole.
proof fn lemma_find_variable_prefix(names: Seq<Seq<char>>, name: Seq<char>, count: int)
    requires
        0 <= count <= names.len(),
        find_variable(names.take(count), name) is Some,
    ensures
        find_variable(names, name) == find_variable(names.take(count), name),
    decreases names.len(),
{
    if count < names.len() {
        let rest = names.drop_last();
        assert(rest.take(count) =~= names.take(count));
        lemma_find_variable_prefix(rest, name, count);
    } else {
        assert(names.take(count) =~= names);
    }
}

fn interned_value(value: &SourceValue) -> (r: InternedValue)
    ensures
        r@ == value@,
{
    match value {
        SourceValue::U32(value) => InternedValue::U32(*value),
        SourceValue::String(value) => InternedValue::String(value.clone()),
        SourceValue::Symbol(value) => InternedValue::Symbol(value.clone()),
    }
}

fn catalog_diagnostic(error: CatalogError, span: Span) -> (diagnostic: Diagnostic)
    ensures
        diagnostic@ == lexer::problem(catalog::catalog_error_text(error@), span),
{
    Diagnostic { message: error.message(), span }
}

fn resolve_term(
    source: &SourceTerm,
    catalog: &mut ProgramCatalog,
    context: &mut RuleContext,
) -> (result: Result<ResolvedTerm, CatalogError>)
    requires
        old(catalog).wf(),
        old(context).names().len() <= u32::MAX + 1,
    ensures
        final(catalog).wf(),
        final(context).names().len() <= u32::MAX + 1,
        final(catalog).predicates == old(catalog).predicates,
        match source@ {
            TermView::Variable(name) => final(catalog)@ == old(catalog)@ && match with_variable(
                old(context).names(),
                name,
            ) {
                Ok((names, i)) => result == Ok::<ResolvedTerm, CatalogError>(
                    ResolvedTerm::Variable(VariableId(i as u32)),
                ) && final(context).names() == names,
                Err(error) => result is Err && result->Err_0@ == error && final(context).names()
                    == old(context).names(),
            },
            TermView::Constant(value) => final(context).names() == old(context).names()
                && match catalog::with_value(old(catalog)@.values, value) {
                Ok((values, i)) => result == Ok::<ResolvedTerm, CatalogError>(
                    ResolvedTerm::Value(ValueId(i as u32)),
                ) && final(catalog)@.values == values,
                Err(error) => result is Err && result->Err_0@ == error && final(catalog)@ == old(
                    catalog,
                )@,
            },
        },
{
    match source {
        SourceTerm::Variable(name) => match context.variable(name.as_str()) {
            Ok(variable) => Ok(ResolvedTerm::Variable(variable)),
            Err(error) => Err(error),
        },
        SourceTerm::Constant(value) => match catalog.values.intern(interned_value(value)) {
            Ok(id) => Ok(ResolvedTerm::Value(id)),
            Err(error) => Err(error),
        },
    }
}

fn resolve_atom(
    source: &SourceAtom,
    catalog: &mut ProgramCatalog,
    context: &mut RuleContext,
    diagnostics: &mut Vec<Diagnostic>,
) -> (atom: Option<ResolvedAtom>)
    requires
        old(catalog).wf(),
        old(context).names().len() <= u32::MAX + 1,
    ensures
        final(catalog).wf(),
        final(context).names().len() <= u32::MAX + 1,
        ({
            let step = resolve_atom_view(old(catalog)@, old(context).names(), source@);
            &&& final(catalog)@ == step.catalog
            &&& final(context).names() == step.names
            &&& ast::views(final(diagnostics)@) == ast::views(old(diagnostics)@) + step.problems
            &&& match atom {
                Some(found) => step.atom == Some(found@),
                None => step.atom is None,
            }
        }),
{
    let ghost start = catalog@;
    let ghost names = context.names();
    let ghost known = ast::views(diagnostics@);
    let ghost expected = resolve_atom_view(start, names, source@);
    let ghost mut lead: Seq<DiagnosticView> = Seq::empty();
    let predicate = match catalog.predicates.declare(
        source.predicate.value.as_str(),
        source.terms.len(),
    ) {
        Ok(id) => Some(id),
        Err(error) => {
            let diagnostic = catalog_diagnostic(error, source.predicate.span);
            proof {
                lead = seq![diagnostic@];
            }
            diagnostics.push(diagnostic);
            None
        },
    };
    assert(ast::views(diagnostics@) =~= known + lead);
    let ghost predicates = catalog@.predicates;
    let ghost all = source@.terms;
    let mut terms: Vec<ResolvedTerm> = Vec::new();
    let mut i: usize = 0;
    proof {
        assert(all.take(0) =~= Seq::empty());
        assert(terms@ =~= Seq::<ResolvedTerm>::empty());
        assert(known + lead + Seq::<DiagnosticView>::empty() =~= known + lead);
    }
    while i < source.terms.len()
        invariant
            i <= source.terms@.len(),
            all == source@.terms,
            catalog.wf(),
            context.names().len() <= u32::MAX + 1,
            catalog@.predicates == predicates,
            ({
                let step = resolve_terms(start.values, names, all.take(i as int));
                &&& catalog@.values == step.values
                &&& context.names() == step.names
                &&& terms@ == step.terms
                &&& ast::views(diagnostics@) == known + lead + step.problems
            }),
        decreases source.terms@.len() - i,
    {
        let term = &source.terms[i];
        let ghost before = ast::views(diagnostics@);
        let ghost step = resolve_terms(start.values, names, all.take(i as int));
        proof {
            assert(all[i as int] == term@);
            assert(all.take(i + 1).drop_last() =~= all.take(i as int));
        }
        match resolve_term(&term.value, catalog, context) {
            Ok(resolved) => {
                terms.push(resolved);
            },
            Err(error) => {
                let diagnostic = catalog_diagnostic(error, term.span);
                let ghost view = diagnostic@;
                diagnostics.push(diagnostic);
                assert(ast::views(diagnostics@) =~= before.push(view));
                assert((known + lead + step.problems).push(view) =~= known + lead
                    + step.problems.push(view));
            },
        }
        i += 1;
    }
    proof {
        assert(all.take(all.len() as int) =~= all);
        let step = resolve_terms(start.values, names, all);
        assert(known + lead + step.problems =~= known + (lead + step.problems));
        assert(Seq::<DiagnosticView>::empty() + step.problems =~= step.problems);
    }
    match predicate {
        Some(predicate) => Some(ResolvedAtom { predicate, terms, span: source.span }),
        None => None,
    }
}

fn contains_term(terms: &Vec<ResolvedTerm>, term: ResolvedTerm) -> (found: bool)
    ensures
        found == terms@.contains(term),
{
    let mut i: usize = 0;
    while i < terms.len()
        invariant
            i <= terms@.len(),
            forall|j: int| 0 <= j < i ==> terms@[j] != term,
        decreases terms@.len() - i,
    {
        if terms[i] == term {
            assert(terms@[i as int] == term);
            return true;
        }
        i += 1;
    }
    false
}

/// Whether a positive literal uses a variable.
fn is_bound(body: &Vec<ResolvedLiteral>, variable: VariableId) -> (bound: bool)
    ensures
        bound == binds(ast::views(body@), variable),
{
    let ghost all = ast::views(body@);
    let mut j: usize = 0;
    while j < body.len()
        invariant
            j <= body@.len(),
            all == ast::views(body@),
            forall|k: int|
                0 <= k < j && !(#[trigger] all[k]).negated ==> !all[k].atom.terms.contains(
                    ResolvedTerm::Variable(variable),
                ),
        decreases body@.len() - j,
    {
        let literal = &body[j];
        assert(all[j as int] == literal@);
        if !literal.negated && contains_term(
            &literal.atom.terms,
            ResolvedTerm::Variable(variable),
        ) {
            assert(!all[j as int].negated);
            return true;
        }
        j += 1;
    }
    false
}

/// Whether every variable among terms has a name.
pub open spec fn variables_named(terms: Seq<ResolvedTerm>, names: Seq<Seq<char>>) -> bool {
    forall|i: int|
        0 <= i < terms.len() ==> ((#[trigger] terms[i]) matches ResolvedTerm::Variable(v) ==> v.0
            < names.len())
}

/// Reports the variables among terms that no positive literal binds.
fn check_bound(
    terms: &Vec<ResolvedTerm>,
    source: &Vec<Spanned<SourceTerm>>,
    body: &Vec<ResolvedLiteral>,
    context: &RuleContext,
    prefix: &str,
    suffix: &str,
    diagnostics: &mut Vec<Diagnostic>,
)
    requires
        variables_named(terms@, context.names()),
    ensures
        ast::views(final(diagnostics)@) == ast::views(old(diagnostics)@) + unbound_problems(
            terms@,
            ast::views(source@),
            ast::views(body@),
            context.names(),
            prefix@,
            suffix@,
            least(terms@.len(), source@.len()),
        ),
{
    let ghost known = ast::views(diagnostics@);
    let ghost all = ast::views(body@);
    let ghost spans = ast::views(source@);
    let ghost names = context.names();
    let mut i: usize = 0;
    assert(known + Seq::<DiagnosticView>::empty() =~= known);
    while i < terms.len() && i < source.len()
        invariant
            i <= terms@.len(),
            i <= source@.len(),
            spans == ast::views(source@),
            all == ast::views(body@),
            names == context.names(),
            variables_named(terms@, names),
            ast::views(diagnostics@) == known + unbound_problems(
                terms@,
                spans,
                all,
                names,
                prefix@,
                suffix@,
                i as int,
            ),
        decreases terms@.len() - i,
    {
        let ghost before = ast::views(diagnostics@);
        let ghost earlier = unbound_problems(
            terms@,
            spans,
            all,
            names,
            prefix@,
            suffix@,
            i as int,
        );
        match terms[i] {
            ResolvedTerm::Variable(variable) => {
                if !is_bound(body, variable) {
                    assert(terms@[i as int] is Variable);
                    let mut message = prefix.to_owned();
                    let index: usize = variable.0 as usize;
                    assert(names[index as int] == context.variable_names@[index as int]@);
                    message.append(context.variable_names[index].as_str());
                    message.append(suffix);
                    assert(spans[i as int] == source@[i as int]@);
                    let diagnostic = Diagnostic { message, span: source[i].span };
                    let ghost view = diagnostic@;
                    diagnostics.push(diagnostic);
                    assert(ast::views(diagnostics@) =~= before.push(view));
                    assert((known + earlier).push(view) =~= known + earlier.push(view));
                }
            },
            ResolvedTerm::Value(_) => {},
        }
        i += 1;
    }
}

proof fn lemma_with_variable(names: Seq<Seq<char>>, name: Seq<char>)
    ensures
        with_variable(names, name) matches Ok((all, i)) ==> {
            &&& 0 <= i < all.len()
            &&& i <= u32::MAX || i < names.len()
            &&& names.len() <= all.len()
        },
{
    lemma_find_variable(names, name);
}

proof fn lemma_find_variable(names: Seq<Seq<char>>, name: Seq<char>)
    ensures
        find_variable(names, name) matches Some(i) ==> 0 <= i < names.len(),
    decreases names.len(),
{
    if names.len() > 0 {
        lemma_find_variable(names.drop_last(), name);
    }
}

pub proof fn lemma_terms_named(
    values: Seq<ConstantView>,
    names: Seq<Seq<char>>,
    terms: Seq<(TermView, Span)>,
)
    requires
        names.len() <= u32::MAX + 1,
    ensures
        names.len() <= resolve_terms(values, names, terms).names.len() <= u32::MAX + 1,
        variables_named(
            resolve_terms(values, names, terms).terms,
            resolve_terms(values, names, terms).names,
        ),
    decreases terms.len(),
{
    if terms.len() > 0 {
        lemma_terms_named(values, names, terms.drop_last());
        let earlier = resolve_terms(values, names, terms.drop_last());
        if let TermView::Variable(name) = terms.last().0 {
            lemma_with_variable(earlier.names, name);
        }
    }
}

pub proof fn lemma_body_named(catalog: CatalogView, names: Seq<Seq<char>>, body: Seq<LiteralView>)
    requires
        names.len() <= u32::MAX + 1,
    ensures
        names.len() <= resolve_body(catalog, names, body).names.len() <= u32::MAX + 1,
        forall|j: int|
            0 <= j < resolve_body(catalog, names, body).body.len() ==> variables_named(
                (#[trigger] resolve_body(catalog, names, body).body[j]).atom.terms,
                resolve_body(catalog, names, body).names,
            ),
    decreases body.len(),
{
    if body.len() > 0 {
        let rest = body.drop_last();
        lemma_body_named(catalog, names, rest);
        let earlier = resolve_body(catalog, names, rest);
        lemma_terms_named(earlier.catalog.values, earlier.names, body.last().atom.terms);
        let all = resolve_body(catalog, names, body);
        assert forall|j: int| 0 <= j < all.body.len() implies variables_named(
            (#[trigger] all.body[j]).atom.terms,
            all.names,
        ) by {
            if j < earlier.body.len() {
                assert(all.body[j] == earlier.body[j]);
                assert(variables_named(earlier.body[j].atom.terms, earlier.names));
            }
        }
    }
}

fn resolve_rule(
    source: &SourceRule,
    catalog: &mut ProgramCatalog,
) -> (result: Result<ResolvedRule, Vec<Diagnostic>>)
    requires
        old(catalog).wf(),
    ensures
        final(catalog).wf(),
        final(catalog)@ == resolve_rule_view(old(catalog)@, source@).catalog,
        match result {
            Ok(rule) => resolve_rule_view(old(catalog)@, source@).rule == Some(rule@)
                && resolve_rule_view(old(catalog)@, source@).problems.len() == 0,
            Err(problems) => resolve_rule_view(old(catalog)@, source@).rule is None
                && resolve_rule_view(old(catalog)@, source@).problems == ast::views(problems@),
        },
{
    let ghost start = catalog@;
    let ghost expected = resolve_rule_view(start, source@);
    let mut context = RuleContext { variable_names: Vec::new() };
    let mut diagnostics: Vec<Diagnostic> = Vec::new();
    proof {
        assert(context.names() =~= Seq::<Seq<char>>::empty());
        assert(ast::views(diagnostics@) =~= Seq::<DiagnosticView>::empty());
    }
    let head = resolve_atom(&source.head, catalog, &mut context, &mut diagnostics);
    let ghost head_step = resolve_atom_view(start, Seq::empty(), source@.head);
    let ghost literals = source@.body;
    let mut body: Vec<ResolvedLiteral> = Vec::new();
    let mut i: usize = 0;
    proof {
        assert(Seq::<DiagnosticView>::empty() + head_step.problems =~= head_step.problems);
        assert(literals.take(0) =~= Seq::empty());
        assert(ast::views(body@) =~= Seq::<ResolvedLiteralView>::empty());
        assert(head_step.problems + Seq::<DiagnosticView>::empty() =~= head_step.problems);
    }
    while i < source.body.len()
        invariant
            i <= source.body@.len(),
            literals == source@.body,
            catalog.wf(),
            context.names().len() <= u32::MAX + 1,
            ({
                let step = resolve_body(
                    head_step.catalog,
                    head_step.names,
                    literals.take(i as int),
                );
                &&& catalog@ == step.catalog
                &&& context.names() == step.names
                &&& ast::views(body@) == step.body
                &&& body@.len() <= i
                &&& ast::views(diagnostics@) == head_step.problems + step.problems
            }),
        decreases source.body@.len() - i,
    {
        let literal = &source.body[i];
        let ghost earlier = resolve_body(
            head_step.catalog,
            head_step.names,
            literals.take(i as int),
        );
        let ghost before = ast::views(body@);
        proof {
            assert(literals[i as int] == literal@);
            assert(literals.take(i + 1).drop_last() =~= literals.take(i as int));
        }
        let ghost own = resolve_atom_view(catalog@, context.names(), literal.atom@);
        let resolved = resolve_atom(&literal.atom, catalog, &mut context, &mut diagnostics);
        proof {
            assert((head_step.problems + earlier.problems) + own.problems =~= head_step.problems
                + (earlier.problems + own.problems));
        }
        if let Some(atom) = resolved {
            let item = ResolvedLiteral { negated: literal.negated, atom, span: literal.span };
            let ghost view = item@;
            body.push(item);
            assert(ast::views(body@) =~= before.push(view));
        }
        i += 1;
    }
    let ghost body_step = resolve_body(head_step.catalog, head_step.names, literals);
    let ghost names = context.names();
    let ghost so_far = ast::views(diagnostics@);
    proof {
        assert(literals.take(literals.len() as int) =~= literals);
        lemma_terms_named(start.values, Seq::empty(), source@.head.terms);
        lemma_body_named(head_step.catalog, head_step.names, literals);
        assert(so_far + Seq::<DiagnosticView>::empty() =~= so_far);
    }
    if let Some(atom) = &head {
        check_bound(
            &atom.terms,
            &source.head.terms,
            &body,
            &context,
            "head variable ",
            " is not bound by a positive body atom",
            &mut diagnostics,
        );
    }
    let ghost unbound = match head_step.atom {
        Some(atom) => head_problems(
            atom.terms,
            source@.head.terms,
            body_step.body,
            body_step.names,
        ),
        None => Seq::empty(),
    };
    let ghost checked = so_far + unbound;
    assert(ast::views(diagnostics@) == checked);
    assert(checked + Seq::<DiagnosticView>::empty() =~= checked);
    let mut k: usize = 0;
    while k < body.len()
        invariant
            k <= body@.len(),
            literals == source@.body,
            literals.len() == source.body@.len(),
            body@.len() <= source.body@.len(),
            names == context.names(),
            ast::views(body@) == body_step.body,
            names == body_step.names,
            forall|j: int|
                0 <= j < body_step.body.len() ==> variables_named(
                    (#[trigger] body_step.body[j]).atom.terms,
                    names,
                ),
            ast::views(diagnostics@) == checked + negation_problems(
                body_step.body,
                literals,
                names,
                k as int,
            ),
        decreases body@.len() - k,
    {
        let literal = &body[k];
        let ghost earlier = negation_problems(
            body_step.body,
            literals,
            names,
            k as int,
        );
        proof {
            assert(body_step.body[k as int] == literal@);
            assert(literals[k as int] == source.body@[k as int]@);
            assert(variables_named(body_step.body[k as int].atom.terms, names));
        }
        if literal.negated {
            check_bound(
                &literal.atom.terms,
                &source.body[k].atom.terms,
                &body,
                &context,
                "variable ",
                " in a negated atom is not bound by a positive body atom",
                &mut diagnostics,
            );
        }
        proof {
            let own = literal_problems(
                body_step.body[k as int],
                literals[k as int],
                body_step.body,
                names,
            );
            assert((checked + earlier) + own =~= checked + (earlier + own));
            assert(earlier + Seq::<DiagnosticView>::empty() =~= earlier);
        }
        k += 1;
    }
    assert(ast::views(diagnostics@) =~= expected.problems);
    if diagnostics.len() == 0 {
        match head {
            Some(head) => Ok(
                ResolvedRule {
                    head,
                    body,
                    variable_names: context.variable_names,
                    span: source.span,
                },
            ),
            None => {
                assert(head_step.problems.len() > 0);
                assert(false);
                Err(diagnostics)
            },
        }
    } else {
        Err(diagnostics)
    }
}

fn is_declared(source: &SourceProgram, name: &str) -> (r: bool)
    ensures
        r == declares_name(source@.declarations, name@),
{
    let ghost all = source@.declarations;
    let mut i: usize = 0;
    while i < source.declarations.len()
        invariant
            i <= source.declarations@.len(),
            all == source@.declarations,
            forall|j: int| 0 <= j < i ==> (#[trigger] all[j]).predicate.0 != name@,
        decreases source.declarations@.len() - i,
    {
        assert(all[i as int] == source.declarations@[i as int]@);
        if same_text(source.declarations[i].predicate.value.as_str(), name) {
            return true;
        }
        i += 1;
    }
    false
}

fn is_derived(source: &SourceProgram, name: &str) -> (r: bool)
    ensures
        r == derives_name(source@.rules, name@),
{
    let ghost all = source@.rules;
    let mut i: usize = 0;
    while i < source.rules.len()
        invariant
            i <= source.rules@.len(),
            all == source@.rules,
            forall|j: int|
                0 <= j < i && (#[trigger] all[j]).body.len() > 0 ==> all[j].head.predicate.0
                    != name@,
        decreases source.rules@.len() - i,
    {
        assert(all[i as int] == source.rules@[i as int]@);
        if !source.rules[i].is_fact() && same_text(
            source.rules[i].head.predicate.value.as_str(),
            name,
        ) {
            assert(all[i as int].body.len() > 0);
            return true;
        }
        i += 1;
    }
    false
}

fn name_problem(prefix: &str, name: &Spanned<String>, suffix: &str) -> (diagnostic: Diagnostic)
    ensures
        diagnostic@ == lexer::problem(prefix@ + name@.0 + suffix@, name@.1),
{
    let mut message = prefix.to_owned();
    message.append(name.value.as_str());
    message.append(suffix);
    Diagnostic { message, span: name.span }
}

/// Resolves a program against a catalog, which gains its predicates and values. Rules with
/// problems are reported and left out.
pub fn resolve_program(source: &SourceProgram, catalog: &mut ProgramCatalog) -> (output:
    ResolveOutput)
    requires
        old(catalog).wf(),
    ensures
        final(catalog).wf(),
        output@ == resolved(old(catalog)@, source@).0,
        final(catalog)@ == resolved(old(catalog)@, source@).1,
{
    let ghost start = catalog@;
    let mut diagnostics: Vec<Diagnostic> = Vec::new();
    let ghost first = StatementsStep {
        catalog: start,
        declared: Seq::empty(),
        rules: Seq::empty(),
        problems: Seq::empty(),
    };
    let ghost mut step = first;
    let mut declarations: Vec<PredicateId> = Vec::new();
    let mut rules: Vec<ResolvedRule> = Vec::new();
    let mut d: usize = 0;
    let mut r: usize = 0;
    proof {
        assert(ast::views(diagnostics@) =~= Seq::<DiagnosticView>::empty());
        assert(ast::views(rules@) =~= Seq::<ResolvedRuleView>::empty());
        assert(declarations@ =~= Seq::<PredicateId>::empty());
    }
    while d < source.declarations.len() || r < source.rules.len()
        invariant
            d <= source.declarations@.len(),
            r <= source.rules@.len(),
            catalog.wf(),
            catalog@ == step.catalog,
            declarations@ == step.declared,
            ast::views(rules@) == step.rules,
            ast::views(diagnostics@) == step.problems,
            resolve_statements(step, source@, d as int, r as int) == resolve_statements(
                first,
                source@,
                0,
                0,
            ),
        decreases source.declarations@.len() - d + source.rules@.len() - r,
    {
        let ghost known = diagnostics@;
        let declaring = d < source.declarations.len() && (r == source.rules.len()
            || source.declarations[d].predicate.span.start <= source.rules[r].span.start);
        proof {
            if d < source.declarations@.len() {
                assert(source@.declarations[d as int] == source.declarations@[d as int]@);
            }
            if r < source.rules@.len() {
                assert(source@.rules[r as int] == source.rules@[r as int]@);
            }
        }
        if declaring {
            let declaration = &source.declarations[d];
            proof {
                step = with_declaration(step, declaration@);
            }
            match catalog.predicates.declare(
                declaration.predicate.value.as_str(),
                declaration.arity,
            ) {
                Ok(id) => {
                    declarations.push(id);
                },
                Err(error) => {
                    let diagnostic = catalog_diagnostic(error, declaration.predicate.span);
                    let ghost view = diagnostic@;
                    diagnostics.push(diagnostic);
                    assert(ast::views(diagnostics@) =~= ast::views(known).push(view));
                },
            }
            d += 1;
        } else {
            let ghost before = ast::views(rules@);
            let ghost earlier = step;
            let ghost own = resolve_rule_view(catalog@, source@.rules[r as int]);
            proof {
                step = with_source_rule(step, source@.rules[r as int]);
            }
            match resolve_rule(&source.rules[r], catalog) {
                Ok(rule) => {
                    let ghost view = rule@;
                    rules.push(rule);
                    assert(ast::views(rules@) =~= before.push(view));
                    assert(earlier.problems + own.problems =~= earlier.problems);
                },
                Err(errors) => {
                    let mut errors = errors;
                    let ghost added = errors@;
                    diagnostics.append(&mut errors);
                    assert(ast::views(diagnostics@) =~= ast::views(known) + ast::views(added));
                },
            }
            r += 1;
        }
    }
    let ghost all = step;
    let ghost base = all.problems;
    let ghost all_inputs = source@.inputs;
    let mut n: usize = 0;
    proof {
        assert(step == all_statements(start, source@));
        assert(all_inputs.take(0) =~= Seq::empty());
        assert(base + Seq::<DiagnosticView>::empty() =~= base);
    }
    while n < source.inputs.len()
        invariant
            n <= source.inputs@.len(),
            all_inputs == source@.inputs,
            ast::views(diagnostics@) == base + input_problems(source@, all_inputs.take(n as int)),
        decreases source.inputs@.len() - n,
    {
        let input = &source.inputs[n];
        let ghost earlier = input_problems(source@, all_inputs.take(n as int));
        let ghost before = ast::views(diagnostics@);
        proof {
            assert(all_inputs[n as int] == input@);
            assert(all_inputs.take(n + 1).drop_last() =~= all_inputs.take(n as int));
        }
        if !is_declared(source, input.value.as_str()) {
            let diagnostic = name_problem("input predicate ", input, " is not declared");
            let ghost view = diagnostic@;
            diagnostics.push(diagnostic);
            assert(ast::views(diagnostics@) =~= before.push(view));
            assert((base + earlier).push(view) =~= base + earlier.push(view));
        } else if is_derived(source, input.value.as_str()) {
            let diagnostic = name_problem("input predicate ", input, " is derived by a rule");
            let ghost view = diagnostic@;
            diagnostics.push(diagnostic);
            assert(ast::views(diagnostics@) =~= before.push(view));
            assert((base + earlier).push(view) =~= base + earlier.push(view));
        }
        n += 1;
    }
    let ghost more = base + input_problems(source@, all_inputs);
    let ghost all_outputs = source@.outputs;
    let mut outputs: Vec<PredicateId> = Vec::new();
    let mut o: usize = 0;
    proof {
        assert(all_inputs.take(all_inputs.len() as int) =~= all_inputs);
        assert(all_outputs.take(0) =~= Seq::empty());
        assert(outputs@ =~= Seq::<PredicateId>::empty());
        assert(more + Seq::<DiagnosticView>::empty() =~= more);
    }
    while o < source.outputs.len()
        invariant
            o <= source.outputs@.len(),
            all_outputs == source@.outputs,
            catalog.wf(),
            catalog@ == all.catalog,
            outputs@ == resolve_outputs(all.catalog, all_outputs.take(o as int)).ids,
            ast::views(diagnostics@) == more + resolve_outputs(
                all.catalog,
                all_outputs.take(o as int),
            ).problems,
        decreases source.outputs@.len() - o,
    {
        let output = &source.outputs[o];
        let ghost earlier = resolve_outputs(all.catalog, all_outputs.take(o as int));
        let ghost before = ast::views(diagnostics@);
        proof {
            assert(all_outputs[o as int] == output@);
            assert(all_outputs.take(o + 1).drop_last() =~= all_outputs.take(o as int));
        }
        let found = match catalog.predicates.id(output.value.as_str()) {
            Some(id) => match catalog.predicates.get(id) {
                Some(metadata) => if metadata.arity.is_some() {
                    Some(id)
                } else {
                    None
                },
                None => None,
            },
            None => None,
        };
        match found {
            Some(id) => {
                outputs.push(id);
            },
            None => {
                let diagnostic = name_problem("output predicate ", output, " is not defined");
                let ghost view = diagnostic@;
                diagnostics.push(diagnostic);
                assert(ast::views(diagnostics@) =~= before.push(view));
                assert((more + earlier.problems).push(view) =~= more + earlier.problems.push(
                    view,
                ));
            },
        }
        o += 1;
    }
    assert(all_outputs.take(all_outputs.len() as int) =~= all_outputs);
    ResolveOutput { program: ResolvedProgram { rules, declarations, outputs }, diagnostics }
}

} // verus!
