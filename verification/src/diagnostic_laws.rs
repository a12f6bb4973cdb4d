//! What is said of a program that cannot be resolved, and where.
use vstd::prelude::*;

use crate::ast::{
    AtomView, DeclarationView, LiteralView, ProgramView, ResolvedLiteralView, ResolvedTerm,
    RuleView, Span, TermView,
};
use crate::catalog;
use crate::catalog::{CatalogView, PredicateId};
use crate::lexer::DiagnosticView;
use crate::resolve;
use crate::resolve::StatementsStep;
use crate::text;

verus! {

/// Whether a term is a variable that no positive literal has.
pub open spec fn is_unbound(term: ResolvedTerm, body: Seq<ResolvedLiteralView>) -> bool {
    &&& term is Variable
    &&& forall|j: int|
        0 <= j < body.len() && !(#[trigger] body[j]).negated ==> !body[j].atom.terms.contains(term)
}

proof fn lemma_unbound(term: ResolvedTerm, body: Seq<ResolvedLiteralView>)
    requires
        term is Variable,
    ensures
        is_unbound(term, body) <==> !resolve::binds(body, term->Variable_0),
{
    if is_unbound(term, body) && resolve::binds(body, term->Variable_0) {
        let j = choose|j: int|
            0 <= j < body.len() && !(#[trigger] body[j]).negated && body[j].atom.terms.contains(
                ResolvedTerm::Variable(term->Variable_0),
            );
        assert(!body[j].atom.terms.contains(term));
    }
    if !is_unbound(term, body) {
        let j = choose|j: int|
            0 <= j < body.len() && !(#[trigger] body[j]).negated && body[j].atom.terms.contains(
                term,
            );
        assert(resolve::binds(body, term->Variable_0));
    }
}

proof fn lemma_same_problems(
    terms: Seq<ResolvedTerm>,
    source: Seq<(TermView, Span)>,
    term: ResolvedTerm,
    from: (TermView, Span),
    body: Seq<ResolvedLiteralView>,
    names: Seq<Seq<char>>,
    prefix: Seq<char>,
    suffix: Seq<char>,
    count: int,
)
    requires
        0 <= count <= terms.len(),
        count <= source.len(),
    ensures
        resolve::unbound_problems(
            terms.push(term),
            source.push(from),
            body,
            names,
            prefix,
            suffix,
            count,
        ) == resolve::unbound_problems(terms, source, body, names, prefix, suffix, count),
    decreases count,
{
    if count > 0 {
        lemma_same_problems(terms, source, term, from, body, names, prefix, suffix, count - 1);
        assert(terms.push(term)[count - 1] == terms[count - 1]);
        assert(source.push(from)[count - 1] == source[count - 1]);
    }
}

/// Each variable of a head that no positive literal has is reported, in order, where it stands.
pub proof fn law_head_variables(
    terms: Seq<ResolvedTerm>,
    source: Seq<(TermView, Span)>,
    term: ResolvedTerm,
    from: (TermView, Span),
    body: Seq<ResolvedLiteralView>,
    names: Seq<Seq<char>>,
)
    requires
        terms.len() == source.len(),
    ensures
        resolve::head_problems(Seq::empty(), Seq::empty(), body, names).len() == 0,
        resolve::head_problems(terms.push(term), source.push(from), body, names) == if is_unbound(
            term,
            body,
        ) {
            resolve::head_problems(terms, source, body, names).push(
                DiagnosticView {
                    message: "head variable "@ + names[term->Variable_0.0 as int]
                        + " is not bound by a positive body atom"@,
                    span: from.1,
                },
            )
        } else {
            resolve::head_problems(terms, source, body, names)
        },
{
    let prefix = "head variable "@;
    let suffix = " is not bound by a positive body atom"@;
    let n = terms.len() as int;
    lemma_same_problems(terms, source, term, from, body, names, prefix, suffix, n);
    if term is Variable {
        lemma_unbound(term, body);
    }
}

/// Each variable of a negated literal that no positive literal has is reported, in order, where it
/// stands. A positive literal has no such problem.
pub proof fn law_negated_variables(
    literal: ResolvedLiteralView,
    source: LiteralView,
    term: ResolvedTerm,
    from: (TermView, Span),
    body: Seq<ResolvedLiteralView>,
    names: Seq<Seq<char>>,
)
    requires
        literal.atom.terms.len() == source.atom.terms.len(),
    ensures
        !literal.negated ==> resolve::literal_problems(literal, source, body, names).len() == 0,
        literal.atom.terms.len() == 0 ==> resolve::literal_problems(
            literal,
            source,
            body,
            names,
        ).len() == 0,
        literal.negated ==> ({
            let longer = ResolvedLiteralView {
                atom: crate::ast::ResolvedAtomView {
                    terms: literal.atom.terms.push(term),
                    ..literal.atom
                },
                ..literal
            };
            let written = LiteralView {
                atom: AtomView { terms: source.atom.terms.push(from), ..source.atom },
                ..source
            };
            let earlier = resolve::literal_problems(literal, source, body, names);
            resolve::literal_problems(longer, written, body, names) == if is_unbound(term, body) {
                earlier.push(
                    DiagnosticView {
                        message: "variable "@ + names[term->Variable_0.0 as int]
                            + " in a negated atom is not bound by a positive body atom"@,
                        span: from.1,
                    },
                )
            } else {
                earlier
            }
        }),
{
    let prefix = "variable "@;
    let suffix = " in a negated atom is not bound by a positive body atom"@;
    let terms = literal.atom.terms;
    lemma_same_problems(
        terms,
        source.atom.terms,
        term,
        from,
        body,
        names,
        prefix,
        suffix,
        terms.len() as int,
    );
    if term is Variable {
        lemma_unbound(term, body);
    }
}

/// The problems of the negated literals of a body come in the order of the literals.
pub proof fn law_negated_literals(
    body: Seq<ResolvedLiteralView>,
    source: Seq<LiteralView>,
    names: Seq<Seq<char>>,
    count: int,
)
    requires
        0 <= count < body.len(),
    ensures
        resolve::negation_problems(body, source, names, 0).len() == 0,
        resolve::negation_problems(body, source, names, count + 1) == resolve::negation_problems(
            body,
            source,
            names,
            count,
        ) + resolve::literal_problems(body[count], source[count], body, names),
{
}

/// An atom whose predicate is known with another number of terms is reported at the predicate.
pub proof fn law_arity_conflicts(
    known: CatalogView,
    names: Seq<Seq<char>>,
    atom: AtomView,
    i: int,
)
    requires
        atom.terms.len() <= usize::MAX,
        0 <= i < known.predicates.len(),
        known.predicates[i].0 == atom.predicate.0,
        forall|j: int| 0 <= j < i ==> (#[trigger] known.predicates[j]).0 != atom.predicate.0,
        known.predicates[i].1 is Some,
    ensures
        ({
            let arity = known.predicates[i].1->0;
            let step = resolve::resolve_atom_view(known, names, atom);
            &&& step.catalog.predicates == known.predicates
            &&& arity == atom.terms.len() ==> step.atom is Some && step.atom->0.predicate
                == PredicateId(i as u32)
            &&& arity != atom.terms.len() ==> step.atom is None && step.problems.len() > 0
                && step.problems[0] == (DiagnosticView {
                message: "predicate "@ + atom.predicate.0 + " already has arity "@ + text::decimal(
                    arity as nat,
                ) + ", not "@ + text::decimal(atom.terms.len()),
                span: atom.predicate.1,
            })
        }),
{
    catalog::lemma_find_name(known.predicates, atom.predicate.0);
    let found = catalog::find_name(known.predicates, atom.predicate.0);
    assert(found == Some(i)) by {
        if found is None {
            assert(known.predicates[i].0 != atom.predicate.0);
        } else {
            let k = found->0;
            if k < i {
                assert(known.predicates[k].0 != atom.predicate.0);
            }
        }
    }
}

/// A declaration whose predicate is known with another arity is reported at the predicate, and
/// leaves everything else as it was.
pub proof fn law_declared_conflicts(step: StatementsStep, declaration: DeclarationView, i: int)
    requires
        0 <= i < step.catalog.predicates.len(),
        step.catalog.predicates[i].0 == declaration.predicate.0,
        forall|j: int|
            0 <= j < i ==> (#[trigger] step.catalog.predicates[j]).0 != declaration.predicate.0,
        step.catalog.predicates[i].1 is Some,
        step.catalog.predicates[i].1->0 != declaration.arity,
    ensures
        ({
            let arity = step.catalog.predicates[i].1->0;
            let after = resolve::with_declaration(step, declaration);
            &&& after.catalog == step.catalog
            &&& after.declared == step.declared
            &&& after.rules == step.rules
            &&& after.problems == step.problems.push(
                DiagnosticView {
                    message: "predicate "@ + declaration.predicate.0 + " already has arity "@
                        + text::decimal(arity as nat) + ", not "@ + text::decimal(
                        declaration.arity as nat,
                    ),
                    span: declaration.predicate.1,
                },
            )
        }),
{
    let known = step.catalog.predicates;
    let name = declaration.predicate.0;
    catalog::lemma_find_name(known, name);
    let found = catalog::find_name(known, name);
    assert(found == Some(i)) by {
        if found is None {
            assert(known[i].0 != name);
        } else {
            let k = found->0;
            if k < i {
                assert(known[k].0 != name);
            }
        }
    }
}

/// An input that is not declared, or that a rule with a body derives, is reported where it stands.
pub proof fn law_inputs(
    source: ProgramView,
    inputs: Seq<(Seq<char>, Span)>,
    input: (Seq<char>, Span),
)
    ensures
        resolve::input_problems(source, Seq::empty()).len() == 0,
        ({
            let earlier = resolve::input_problems(source, inputs);
            let declared = exists|i: int|
                0 <= i < source.declarations.len() && (
                #[trigger] source.declarations[i]).predicate.0 == input.0;
            let derived = exists|i: int|
                0 <= i < source.rules.len() && (#[trigger] source.rules[i]).head.predicate.0
                    == input.0 && source.rules[i].body.len() > 0;
            resolve::input_problems(source, inputs.push(input)) == if !declared {
                earlier.push(
                    DiagnosticView {
                        message: "input predicate "@ + input.0 + " is not declared"@,
                        span: input.1,
                    },
                )
            } else if derived {
                earlier.push(
                    DiagnosticView {
                        message: "input predicate "@ + input.0 + " is derived by a rule"@,
                        span: input.1,
                    },
                )
            } else {
                earlier
            }
        }),
{
    assert(inputs.push(input).drop_last() =~= inputs);
}

/// An output that nothing gives an arity is reported where it stands; another one is known by the
/// first identifier of its name.
pub proof fn law_outputs(
    known: CatalogView,
    outputs: Seq<(Seq<char>, Span)>,
    output: (Seq<char>, Span),
)
    ensures
        resolve::resolve_outputs(known, Seq::empty()).ids.len() == 0,
        resolve::resolve_outputs(known, Seq::empty()).problems.len() == 0,
        ({
            let earlier = resolve::resolve_outputs(known, outputs);
            let all = resolve::resolve_outputs(known, outputs.push(output));
            ||| exists|i: int|
                0 <= i < known.predicates.len() && (#[trigger] known.predicates[i]).0 == output.0
                    && known.predicates[i].1 is Some && (forall|j: int|
                    0 <= j < i ==> (#[trigger] known.predicates[j]).0 != output.0) && all.ids
                    == earlier.ids.push(PredicateId(i as u32)) && all.problems == earlier.problems
            ||| (forall|i: int|
                0 <= i < known.predicates.len() && (#[trigger] known.predicates[i]).0 == output.0
                    && (forall|j: int|
                    0 <= j < i ==> (#[trigger] known.predicates[j]).0 != output.0)
                    ==> known.predicates[i].1 is None) && all.ids == earlier.ids && all.problems
                == earlier.problems.push(
                DiagnosticView {
                    message: "output predicate "@ + output.0 + " is not defined"@,
                    span: output.1,
                },
            )
        }),
{
    assert(outputs.push(output).drop_last() =~= outputs);
    catalog::lemma_find_name(known.predicates, output.0);
}

/// The problems of a rule are those of its head, of its body, of the variables of its head and of
/// the variables of its negated literals, in this order. A rule with a problem is left out.
pub proof fn law_rule_problems(known: CatalogView, rule: RuleView)
    ensures
        ({
            let head = resolve::resolve_atom_view(known, Seq::empty(), rule.head);
            let body = resolve::resolve_body(head.catalog, head.names, rule.body);
            let step = resolve::resolve_rule_view(known, rule);
            let free = if head.atom is Some {
                resolve::head_problems(
                    head.atom->0.terms,
                    rule.head.terms,
                    body.body,
                    body.names,
                )
            } else {
                Seq::empty()
            };
            &&& step.problems == head.problems + body.problems + free + resolve::negation_problems(
                body.body,
                rule.body,
                body.names,
                body.body.len() as int,
            )
            &&& step.rule is Some <==> head.atom is Some && step.problems.len() == 0
            &&& step.catalog == body.catalog
        }),
{
}

/// Declarations and rules are resolved in the order in which they start in the text, a declaration
/// before a rule that starts at the same place.
pub proof fn law_statements_in_order(
    step: StatementsStep,
    source: ProgramView,
    d: int,
    r: int,
)
    requires
        0 <= d <= source.declarations.len(),
        0 <= r <= source.rules.len(),
    ensures
        d == source.declarations.len() && r == source.rules.len() ==> resolve::resolve_statements(
            step,
            source,
            d,
            r,
        ) == step,
        d < source.declarations.len() && (r == source.rules.len()
            || source.declarations[d].predicate.1.start <= source.rules[r].span.start)
            ==> resolve::resolve_statements(step, source, d, r) == resolve::resolve_statements(
            resolve::with_declaration(step, source.declarations[d]),
            source,
            d + 1,
            r,
        ),
        r < source.rules.len() && (d == source.declarations.len()
            || source.rules[r].span.start < source.declarations[d].predicate.1.start)
            ==> resolve::resolve_statements(step, source, d, r) == resolve::resolve_statements(
            resolve::with_source_rule(step, source.rules[r]),
            source,
            d,
            r + 1,
        ),
{
}

/// The problems of a program are those of its statements, of its inputs and of its outputs, in this
/// order.
pub proof fn law_program_problems(known: CatalogView, source: ProgramView)
    ensures
        ({
            let nothing = StatementsStep {
                catalog: known,
                declared: Seq::empty(),
                rules: Seq::empty(),
                problems: Seq::empty(),
            };
            let step = resolve::resolve_statements(nothing, source, 0, 0);
            let outputs = resolve::resolve_outputs(step.catalog, source.outputs);
            let (found, after) = resolve::resolved(known, source);
            &&& found.diagnostics == step.problems + resolve::input_problems(source, source.inputs)
                + outputs.problems
            &&& found.program.rules == step.rules
            &&& found.program.declarations == step.declared
            &&& found.program.outputs == outputs.ids
            &&& after == step.catalog
        }),
{
}

} // verus!
