//! What resolution guarantees: safe rules, over the predicates and values of the catalog.
use vstd::prelude::*;

use crate::ast::{
    AtomView, ConstantView, DeclarationView, LiteralView, ProgramView, ResolvedAtomView,
    ResolvedLiteralView, ResolvedProgramView, ResolvedRuleView, ResolvedTerm, RuleView, Span,
    TermView, VariableId,
};
use crate::catalog;
use crate::catalog::{CatalogView, PredicateId};
use crate::evaluation;
use crate::general;
use crate::relational::{BindingId, PlanTerm};
use crate::resolve;

verus! {

/// Whether a catalog can have grown into another: names and arities stay, values stay.
pub open spec fn grows_into(a: CatalogView, b: CatalogView) -> bool {
    &&& a.predicates.len() <= b.predicates.len()
    &&& forall|i: int|
        0 <= i < a.predicates.len() ==> {
            &&& (#[trigger] b.predicates[i]).0 == a.predicates[i].0
            &&& a.predicates[i].1 is Some ==> b.predicates[i].1 == a.predicates[i].1
        }
    &&& a.values.len() <= b.values.len()
    &&& forall|i: int| 0 <= i < a.values.len() ==> #[trigger] b.values[i] == a.values[i]
}

/// Whether a catalog can be held by one with dense identifiers.
pub open spec fn catalog_fits(catalog: CatalogView) -> bool {
    catalog.predicates.len() <= u32::MAX + 1 && catalog.values.len() <= u32::MAX + 1
}

/// Whether a catalog knows a predicate and its arity.
pub open spec fn knows(catalog: CatalogView, predicate: PredicateId) -> bool {
    (predicate.0 as int) < catalog.predicates.len() && catalog.predicates[predicate.0 as int].1 is Some
}

/// Whether the values among terms are those of a catalog.
pub open spec fn values_known(terms: Seq<ResolvedTerm>, count: int) -> bool {
    forall|i: int|
        0 <= i < terms.len() ==> ((#[trigger] terms[i]) matches ResolvedTerm::Value(v) ==> v.0
            < count)
}

/// Whether a catalog knows the predicate of an atom, with its arity, and its values.
pub open spec fn atom_known(atom: ResolvedAtomView, catalog: CatalogView) -> bool {
    &&& knows(catalog, atom.predicate)
    &&& catalog.predicates[atom.predicate.0 as int].1 == Some(atom.terms.len() as usize)
    &&& values_known(atom.terms, catalog.values.len() as int)
}

/// Whether a catalog knows everything in a rule.
pub open spec fn rule_known(rule: ResolvedRuleView, catalog: CatalogView) -> bool {
    &&& atom_known(rule.head, catalog)
    &&& forall|j: int|
        0 <= j < rule.body.len() ==> atom_known((#[trigger] rule.body[j]).atom, catalog)
}

/// Whether a catalog knows everything in a program.
pub open spec fn program_known(program: ResolvedProgramView, catalog: CatalogView) -> bool {
    &&& forall|i: int|
        0 <= i < program.rules.len() ==> rule_known(#[trigger] program.rules[i], catalog)
    &&& forall|i: int|
        0 <= i < program.declarations.len() ==> knows(catalog, #[trigger] program.declarations[i])
    &&& forall|i: int|
        0 <= i < program.outputs.len() ==> knows(catalog, #[trigger] program.outputs[i])
}

/// Whether every variable of the head and of negated literals occurs in a positive literal.
pub open spec fn variables_bound(rule: ResolvedRuleView) -> bool {
    &&& forall|i: int|
        0 <= i < rule.head.terms.len() ==> ((
        #[trigger] rule.head.terms[i]) matches ResolvedTerm::Variable(v) ==> resolve::binds(rule.body, v))
    &&& forall|j: int, i: int|
        #![trigger rule.body[j].atom.terms[i]]
        0 <= j < rule.body.len() && 0 <= i < rule.body[j].atom.terms.len() && rule.body[j].negated
            ==> (rule.body[j].atom.terms[i] matches ResolvedTerm::Variable(v) ==> resolve::binds(
            rule.body,
            v,
        ))
}

/// Whether every variable of a rule has a name.
pub open spec fn rule_named(rule: ResolvedRuleView) -> bool {
    &&& resolve::variables_named(rule.head.terms, rule.variable_names)
    &&& forall|j: int|
        0 <= j < rule.body.len() ==> resolve::variables_named(
            (#[trigger] rule.body[j]).atom.terms,
            rule.variable_names,
        )
}

pub proof fn lemma_grows_transitive(a: CatalogView, b: CatalogView, c: CatalogView)
    requires
        grows_into(a, b),
        grows_into(b, c),
    ensures
        grows_into(a, c),
{
    assert forall|i: int| 0 <= i < a.predicates.len() implies {
        &&& (#[trigger] c.predicates[i]).0 == a.predicates[i].0
        &&& a.predicates[i].1 is Some ==> c.predicates[i].1 == a.predicates[i].1
    } by {
        assert(b.predicates[i].0 == a.predicates[i].0);
    }
    assert forall|i: int| 0 <= i < a.values.len() implies #[trigger] c.values[i]
        == a.values[i] by {
        assert(b.values[i] == a.values[i]);
    }
}

proof fn lemma_atom_stays_known(atom: ResolvedAtomView, a: CatalogView, b: CatalogView)
    requires
        atom_known(atom, a),
        grows_into(a, b),
    ensures
        atom_known(atom, b),
{
    assert(b.predicates[atom.predicate.0 as int].0 == a.predicates[atom.predicate.0 as int].0);
}

proof fn lemma_rule_stays_known(rule: ResolvedRuleView, a: CatalogView, b: CatalogView)
    requires
        rule_known(rule, a),
        grows_into(a, b),
    ensures
        rule_known(rule, b),
{
    lemma_atom_stays_known(rule.head, a, b);
    assert forall|j: int| 0 <= j < rule.body.len() implies atom_known(
        (#[trigger] rule.body[j]).atom,
        b,
    ) by {
        lemma_atom_stays_known(rule.body[j].atom, a, b);
    }
}

pub proof fn lemma_declared(catalog: CatalogView, name: Seq<char>, arity: usize)
    requires
        catalog_fits(catalog),
    ensures
        catalog::with_arity(catalog.predicates, name, arity) matches Ok((predicates, i)) ==> {
            &&& 0 <= i < predicates.len() <= u32::MAX + 1
            &&& predicates[i] == (name, Some(arity))
            &&& grows_into(catalog, CatalogView { predicates, values: catalog.values })
        },
{
    catalog::lemma_find_name(catalog.predicates, name);
}

proof fn lemma_interned(catalog: CatalogView, value: ConstantView)
    requires
        catalog_fits(catalog),
    ensures
        catalog::with_value(catalog.values, value) matches Ok((values, i)) ==> {
            &&& 0 <= i < values.len() <= u32::MAX + 1
            &&& grows_into(catalog, CatalogView { predicates: catalog.predicates, values })
        },
{
    catalog::lemma_find_value(catalog.values, value);
}

proof fn lemma_terms(
    catalog: CatalogView,
    names: Seq<Seq<char>>,
    terms: Seq<(TermView, Span)>,
)
    requires
        catalog_fits(catalog),
    ensures
        ({
            let step = resolve::resolve_terms(catalog.values, names, terms);
            let after = CatalogView { predicates: catalog.predicates, values: step.values };
            &&& catalog_fits(after)
            &&& grows_into(catalog, after)
            &&& values_known(step.terms, step.values.len() as int)
            &&& step.problems.len() == 0 ==> step.terms.len() == terms.len()
            &&& step.terms.len() <= terms.len()
        }),
    decreases terms.len(),
{
    if terms.len() > 0 {
        let rest = terms.drop_last();
        lemma_terms(catalog, names, rest);
        let earlier = resolve::resolve_terms(catalog.values, names, rest);
        let middle = CatalogView { predicates: catalog.predicates, values: earlier.values };
        if let TermView::Constant(value) = terms.last().0 {
            lemma_interned(middle, value);
            let step = resolve::resolve_terms(catalog.values, names, terms);
            let after = CatalogView { predicates: catalog.predicates, values: step.values };
            if catalog::with_value(earlier.values, value) is Ok {
                lemma_grows_transitive(catalog, middle, after);
            }
        }
    }
}

pub proof fn lemma_atom(catalog: CatalogView, names: Seq<Seq<char>>, atom: AtomView)
    requires
        catalog_fits(catalog),
    ensures
        ({
            let step = resolve::resolve_atom_view(catalog, names, atom);
            &&& catalog_fits(step.catalog)
            &&& grows_into(catalog, step.catalog)
            &&& step.problems.len() == 0 ==> {
                &&& step.atom is Some
                &&& step.atom->0.terms.len() == atom.terms.len()
                &&& atom_known(step.atom->0, step.catalog)
            }
        }),
{
    lemma_terms(catalog, names, atom.terms);
    lemma_declared(catalog, atom.predicate.0, atom.terms.len() as usize);
    let step = resolve::resolve_terms(catalog.values, names, atom.terms);
    if let Ok((predicates, i)) = catalog::with_arity(
        catalog.predicates,
        atom.predicate.0,
        atom.terms.len() as usize,
    ) {
        assert(PredicateId(i as u32).0 == i);
    }
}

proof fn lemma_body(catalog: CatalogView, names: Seq<Seq<char>>, body: Seq<LiteralView>)
    requires
        catalog_fits(catalog),
    ensures
        ({
            let step = resolve::resolve_body(catalog, names, body);
            &&& catalog_fits(step.catalog)
            &&& grows_into(catalog, step.catalog)
            &&& step.problems.len() == 0 ==> {
                &&& step.body.len() == body.len()
                &&& forall|j: int|
                    0 <= j < body.len() ==> {
                        &&& (#[trigger] step.body[j]).negated == body[j].negated
                        &&& step.body[j].atom.terms.len() == body[j].atom.terms.len()
                        &&& atom_known(step.body[j].atom, step.catalog)
                    }
            }
        }),
    decreases body.len(),
{
    if body.len() > 0 {
        let rest = body.drop_last();
        lemma_body(catalog, names, rest);
        let earlier = resolve::resolve_body(catalog, names, rest);
        let own = resolve::resolve_atom_view(earlier.catalog, earlier.names, body.last().atom);
        lemma_atom(earlier.catalog, earlier.names, body.last().atom);
        let step = resolve::resolve_body(catalog, names, body);
        lemma_grows_transitive(catalog, earlier.catalog, step.catalog);
        if step.problems.len() == 0 {
            assert(earlier.problems.len() == 0 && own.problems.len() == 0);
            assert forall|j: int| 0 <= j < body.len() implies {
                &&& (#[trigger] step.body[j]).negated == body[j].negated
                &&& step.body[j].atom.terms.len() == body[j].atom.terms.len()
                &&& atom_known(step.body[j].atom, step.catalog)
            } by {
                if j < rest.len() {
                    assert(step.body[j] == earlier.body[j]);
                    assert(rest[j] == body[j]);
                    lemma_atom_stays_known(
                        earlier.body[j].atom,
                        earlier.catalog,
                        step.catalog,
                    );
                }
            }
        }
    }
}

proof fn lemma_no_unbound(
    terms: Seq<ResolvedTerm>,
    source: Seq<(TermView, Span)>,
    body: Seq<ResolvedLiteralView>,
    names: Seq<Seq<char>>,
    prefix: Seq<char>,
    suffix: Seq<char>,
    count: int,
)
    requires
        resolve::unbound_problems(terms, source, body, names, prefix, suffix, count).len() == 0,
    ensures
        forall|i: int|
            0 <= i < count ==> ((#[trigger] terms[i]) matches ResolvedTerm::Variable(v) ==> resolve::binds(
                body,
                v,
            )),
    decreases count,
{
    if count > 0 {
        lemma_no_unbound(terms, source, body, names, prefix, suffix, count - 1);
    }
}

proof fn lemma_no_negation_problems(
    body: Seq<ResolvedLiteralView>,
    source: Seq<LiteralView>,
    names: Seq<Seq<char>>,
    count: int,
)
    requires
        resolve::negation_problems(body, source, names, count).len() == 0,
        count <= body.len(),
        count <= source.len(),
        forall|j: int|
            0 <= j < count ==> (#[trigger] body[j]).atom.terms.len() == source[j].atom.terms.len(),
    ensures
        forall|j: int, i: int|
            #![trigger body[j].atom.terms[i]]
            0 <= j < count && 0 <= i < body[j].atom.terms.len() && body[j].negated ==> (
            body[j].atom.terms[i] matches ResolvedTerm::Variable(v) ==> resolve::binds(body, v)),
    decreases count,
{
    if count > 0 {
        lemma_no_negation_problems(body, source, names, count - 1);
        let literal = body[count - 1];
        assert(literal.atom.terms.len() == source[count - 1].atom.terms.len());
        if literal.negated {
            lemma_no_unbound(
                literal.atom.terms,
                source[count - 1].atom.terms,
                body,
                names,
                "variable "@,
                " in a negated atom is not bound by a positive body atom"@,
                literal.atom.terms.len() as int,
            );
        }
        assert forall|j: int, i: int|
            #![trigger body[j].atom.terms[i]]
            0 <= j < count && 0 <= i < body[j].atom.terms.len() && body[j].negated implies (
        body[j].atom.terms[i] matches ResolvedTerm::Variable(v) ==> resolve::binds(body, v)) by {
            if j == count - 1 {
                assert(literal.atom.terms[i] == body[j].atom.terms[i]);
            }
        }
    }
}

/// A rule that resolves is safe: every variable of its head and of its negated literals occurs in
/// a positive literal. The catalog knows its predicates, with their arities, and its values.
pub proof fn law_resolved_rule_is_safe(catalog: CatalogView, rule: RuleView)
    requires
        catalog_fits(catalog),
    ensures
        catalog_fits(resolve::resolve_rule_view(catalog, rule).catalog),
        grows_into(catalog, resolve::resolve_rule_view(catalog, rule).catalog),
        resolve::resolve_rule_view(catalog, rule).rule matches Some(found) ==> {
            &&& variables_bound(found)
            &&& rule_named(found)
            &&& rule_known(found, resolve::resolve_rule_view(catalog, rule).catalog)
            &&& found.body.len() == rule.body.len()
        },
{
    let head = resolve::resolve_atom_view(catalog, Seq::empty(), rule.head);
    lemma_atom(catalog, Seq::empty(), rule.head);
    let body = resolve::resolve_body(head.catalog, head.names, rule.body);
    lemma_body(head.catalog, head.names, rule.body);
    lemma_grows_transitive(catalog, head.catalog, body.catalog);
    resolve::lemma_terms_named(catalog.values, Seq::empty(), rule.head.terms);
    resolve::lemma_body_named(head.catalog, head.names, rule.body);
    if let Some(found) = resolve::resolve_rule_view(catalog, rule).rule {
        assert(head.problems.len() == 0);
        assert(body.problems.len() == 0);
        lemma_atom_stays_known(found.head, head.catalog, body.catalog);
        lemma_no_unbound(
            found.head.terms,
            rule.head.terms,
            body.body,
            body.names,
            "head variable "@,
            " is not bound by a positive body atom"@,
            found.head.terms.len() as int,
        );
        lemma_no_negation_problems(
            body.body,
            rule.body,
            body.names,
            body.body.len() as int,
        );
    }
}

/// A safe rule is one that clauses can evaluate.
pub proof fn lemma_bound_rule_is_safe(rule: ResolvedRuleView)
    requires
        variables_bound(rule),
        rule_named(rule),
        rule.variable_names.len() <= usize::MAX,
    ensures
        general::rule_safe(rule),
{
    let clause = general::rule_clause(rule, None);
    assert forall|b: u32| #[trigger] evaluation::uses(clause.head, b) implies evaluation::bound_by(
        clause.positive,
        b,
    ) by {
        let k = choose|k: int|
            0 <= k < clause.head.len() && clause.head[k] == PlanTerm::Binding(BindingId(b));
        assert(rule.head.terms[k] == ResolvedTerm::Variable(VariableId(b)));
        assert(resolve::binds(rule.body, VariableId(b)));
        let j = choose|j: int|
            0 <= j < rule.body.len() && !(#[trigger] rule.body[j]).negated
                && rule.body[j].atom.terms.contains(ResolvedTerm::Variable(VariableId(b)));
        let atom = general::planned(rule.body[j].atom, general::version_at(j, None));
        general::lemma_body_atoms(rule.body, false, None, atom);
        assert(rule.body[j].negated == false);
        assert(clause.positive.contains(atom));
        let m = choose|m: int| 0 <= m < clause.positive.len() && clause.positive[m] == atom;
        let terms = rule.body[j].atom.terms;
        let t = choose|t: int|
            0 <= t < terms.len() && terms[t] == ResolvedTerm::Variable(VariableId(b));
        assert(general::plan_terms_of(terms)[t] == PlanTerm::Binding(BindingId(b)));
        assert(evaluation::uses(clause.positive[m].terms, b));
    }
    lemma_named_fit(rule.head.terms, rule.variable_names);
    assert forall|j: int| 0 <= j < rule.body.len() implies evaluation::bindings_fit(
        general::plan_terms_of((#[trigger] rule.body[j]).atom.terms),
    ) by {
        lemma_named_fit(rule.body[j].atom.terms, rule.variable_names);
    }
}

proof fn lemma_named_fit(terms: Seq<ResolvedTerm>, names: Seq<Seq<char>>)
    requires
        resolve::variables_named(terms, names),
        names.len() <= usize::MAX,
    ensures
        evaluation::bindings_fit(general::plan_terms_of(terms)),
{
    let plan = general::plan_terms_of(terms);
    assert forall|b: u32| #[trigger] evaluation::uses(plan, b) implies b < usize::MAX by {
        let k = choose|k: int| 0 <= k < plan.len() && plan[k] == PlanTerm::Binding(BindingId(b));
        assert(terms[k] == ResolvedTerm::Variable(VariableId(b)));
    }
}

/// Whether what was resolved of a program is safe and known.
spec fn statements_sound(catalog: CatalogView, step: resolve::StatementsStep) -> bool {
    &&& catalog_fits(step.catalog)
    &&& grows_into(catalog, step.catalog)
    &&& forall|i: int|
        0 <= i < step.rules.len() ==> {
            &&& variables_bound(#[trigger] step.rules[i])
            &&& rule_named(step.rules[i])
            &&& rule_known(step.rules[i], step.catalog)
        }
    &&& forall|i: int|
        0 <= i < step.declared.len() ==> knows(step.catalog, #[trigger] step.declared[i])
}

proof fn lemma_with_rule(catalog: CatalogView, before: resolve::StatementsStep, rule: RuleView)
    requires
        statements_sound(catalog, before),
    ensures
        statements_sound(catalog, resolve::with_source_rule(before, rule)),
{
    let step = resolve::with_source_rule(before, rule);
    law_resolved_rule_is_safe(before.catalog, rule);
    lemma_grows_transitive(catalog, before.catalog, step.catalog);
    assert forall|i: int| 0 <= i < step.rules.len() implies {
        &&& variables_bound(#[trigger] step.rules[i])
        &&& rule_named(step.rules[i])
        &&& rule_known(step.rules[i], step.catalog)
    } by {
        if i < before.rules.len() {
            assert(step.rules[i] == before.rules[i]);
            lemma_rule_stays_known(before.rules[i], before.catalog, step.catalog);
        }
    }
    assert forall|i: int| 0 <= i < step.declared.len() implies knows(
        step.catalog,
        #[trigger] step.declared[i],
    ) by {
        let p = before.declared[i].0 as int;
        assert(step.catalog.predicates[p].0 == before.catalog.predicates[p].0);
    }
}

proof fn lemma_with_declaration(
    catalog: CatalogView,
    before: resolve::StatementsStep,
    declaration: DeclarationView,
)
    requires
        statements_sound(catalog, before),
    ensures
        statements_sound(catalog, resolve::with_declaration(before, declaration)),
{
    let step = resolve::with_declaration(before, declaration);
    lemma_declared(before.catalog, declaration.predicate.0, declaration.arity);
    lemma_grows_transitive(catalog, before.catalog, step.catalog);
    assert forall|i: int| 0 <= i < step.rules.len() implies {
        &&& variables_bound(#[trigger] step.rules[i])
        &&& rule_named(step.rules[i])
        &&& rule_known(step.rules[i], step.catalog)
    } by {
        assert(step.rules[i] == before.rules[i]);
        lemma_rule_stays_known(before.rules[i], before.catalog, step.catalog);
    }
    assert forall|i: int| 0 <= i < step.declared.len() implies knows(
        step.catalog,
        #[trigger] step.declared[i],
    ) by {
        if i < before.declared.len() {
            assert(step.declared[i] == before.declared[i]);
            let p = before.declared[i].0 as int;
            assert(step.catalog.predicates[p].0 == before.catalog.predicates[p].0);
        }
    }
}

proof fn lemma_statements(
    catalog: CatalogView,
    step: resolve::StatementsStep,
    source: ProgramView,
    d: int,
    r: int,
)
    requires
        statements_sound(catalog, step),
    ensures
        statements_sound(catalog, resolve::resolve_statements(step, source, d, r)),
    decreases source.declarations.len() - d + source.rules.len() - r,
{
    if d < 0 || d > source.declarations.len() || r < 0 || r > source.rules.len() {
    } else if d < source.declarations.len() && (r == source.rules.len()
        || resolve::declared_before(source.declarations[d], source.rules[r])) {
        lemma_with_declaration(catalog, step, source.declarations[d]);
        lemma_statements(
            catalog,
            resolve::with_declaration(step, source.declarations[d]),
            source,
            d + 1,
            r,
        );
    } else if r < source.rules.len() {
        lemma_with_rule(catalog, step, source.rules[r]);
        lemma_statements(
            catalog,
            resolve::with_source_rule(step, source.rules[r]),
            source,
            d,
            r + 1,
        );
    }
}

proof fn lemma_outputs(catalog: CatalogView, outputs: Seq<(Seq<char>, Span)>)
    requires
        catalog_fits(catalog),
    ensures
        forall|i: int|
            0 <= i < resolve::resolve_outputs(catalog, outputs).ids.len() ==> knows(
                catalog,
                #[trigger] resolve::resolve_outputs(catalog, outputs).ids[i],
            ),
    decreases outputs.len(),
{
    if outputs.len() > 0 {
        lemma_outputs(catalog, outputs.drop_last());
        catalog::lemma_find_name(catalog.predicates, outputs.last().0);
        let earlier = resolve::resolve_outputs(catalog, outputs.drop_last());
        let step = resolve::resolve_outputs(catalog, outputs);
        assert forall|i: int| 0 <= i < step.ids.len() implies knows(
            catalog,
            #[trigger] step.ids[i],
        ) by {
            if i < earlier.ids.len() {
                assert(step.ids[i] == earlier.ids[i]);
            }
        }
    }
}

/// What a resolved program consists of: safe rules over what the catalog knows afterwards, which
/// holds everything that it held before.
pub proof fn law_resolved_program_is_safe(catalog: CatalogView, source: ProgramView)
    requires
        catalog_fits(catalog),
    ensures
        ({
            let (output, after) = resolve::resolved(catalog, source);
            &&& catalog_fits(after)
            &&& grows_into(catalog, after)
            &&& program_known(output.program, after)
            &&& forall|i: int|
                0 <= i < output.program.rules.len() ==> {
                    &&& variables_bound(#[trigger] output.program.rules[i])
                    &&& rule_named(output.program.rules[i])
                }
        }),
{
    let first = resolve::StatementsStep {
        catalog,
        declared: Seq::empty(),
        rules: Seq::empty(),
        problems: Seq::empty(),
    };
    lemma_statements(catalog, first, source, 0, 0);
    lemma_outputs(resolve::all_statements(catalog, source).catalog, source.outputs);
}

/// What a catalog knows of a program, it knows when it has grown.
pub proof fn lemma_program_stays_known(
    program: ResolvedProgramView,
    a: CatalogView,
    b: CatalogView,
)
    requires
        program_known(program, a),
        grows_into(a, b),
    ensures
        program_known(program, b),
{
    assert forall|i: int| 0 <= i < program.rules.len() implies rule_known(
        #[trigger] program.rules[i],
        b,
    ) by {
        lemma_rule_stays_known(program.rules[i], a, b);
    }
    assert forall|i: int| 0 <= i < program.declarations.len() implies knows(
        b,
        #[trigger] program.declarations[i],
    ) by {
        assert(knows(a, program.declarations[i]));
        assert(b.predicates[program.declarations[i].0 as int].0
            == a.predicates[program.declarations[i].0 as int].0);
    }
    assert forall|i: int| 0 <= i < program.outputs.len() implies knows(
        b,
        #[trigger] program.outputs[i],
    ) by {
        assert(knows(a, program.outputs[i]));
        assert(b.predicates[program.outputs[i].0 as int].0
            == a.predicates[program.outputs[i].0 as int].0);
    }
}

} // verus!
