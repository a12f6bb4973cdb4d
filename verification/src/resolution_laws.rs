//! What resolution keeps of a program: its predicates, its constants, and which variables are one.
use vstd::prelude::*;

use crate::ast::{
    AtomView, ConstantView, LiteralView, ProgramView, ResolvedAtomView, ResolvedLiteralView,
    ResolvedRuleView, ResolvedTerm, RuleView, Span, TermView, VariableId,
};
use crate::catalog;
use crate::catalog::CatalogView;
use crate::resolve;
use crate::resolve_laws;

verus! {

/// The terms of literals, in the order in which they are written.
pub open spec fn body_terms(body: Seq<LiteralView>) -> Seq<(TermView, Span)>
    decreases body.len(),
{
    if body.len() == 0 {
        Seq::empty()
    } else {
        body_terms(body.drop_last()) + body.last().atom.terms
    }
}

/// The terms of a rule, in the order in which they are written.
pub open spec fn rule_terms(rule: RuleView) -> Seq<(TermView, Span)> {
    rule.head.terms + body_terms(rule.body)
}

/// The terms of resolved literals, in order.
pub open spec fn resolved_body_terms(body: Seq<ResolvedLiteralView>) -> Seq<ResolvedTerm>
    decreases body.len(),
{
    if body.len() == 0 {
        Seq::empty()
    } else {
        resolved_body_terms(body.drop_last()) + body.last().atom.terms
    }
}

/// The terms of a resolved rule, in order.
pub open spec fn resolved_rule_terms(rule: ResolvedRuleView) -> Seq<ResolvedTerm> {
    rule.head.terms + resolved_body_terms(rule.body)
}

/// Whether a resolved term stands for a source term: a variable of that name, or that constant.
pub open spec fn stands_for(
    found: ResolvedTerm,
    source: TermView,
    names: Seq<Seq<char>>,
    values: Seq<ConstantView>,
) -> bool {
    match source {
        TermView::Variable(name) => found matches ResolvedTerm::Variable(v) && v.0 < names.len()
            && names[v.0 as int] == name,
        TermView::Constant(value) => found matches ResolvedTerm::Value(v) && v.0 < values.len()
            && values[v.0 as int] == value,
    }
}

/// Whether two source terms are one and the same: a variable of one name, other than the wildcard,
/// or a constant.
pub open spec fn are_one(a: TermView, b: TermView) -> bool {
    match (a, b) {
        (TermView::Variable(x), TermView::Variable(y)) => x == y && x != seq!['_'],
        (TermView::Constant(x), TermView::Constant(y)) => x == y,
        _ => false,
    }
}

/// Whether no value occurs twice.
pub open spec fn values_differ(values: Seq<ConstantView>) -> bool {
    forall|i: int, j: int|
        #![trigger values[i], values[j]]
        0 <= i < j < values.len() ==> values[i] != values[j]
}

/// Whether resolved terms stand for source terms, one for one, and two of them are the same exactly
/// where the source terms are.
pub open spec fn terms_agree(
    found: Seq<ResolvedTerm>,
    source: Seq<(TermView, Span)>,
    names: Seq<Seq<char>>,
    values: Seq<ConstantView>,
) -> bool {
    &&& found.len() == source.len()
    &&& forall|p: int|
        0 <= p < source.len() ==> stands_for(#[trigger] found[p], source[p].0, names, values)
    &&& forall|p: int, q: int|
        #![trigger found[p], found[q]]
        0 <= p < q < source.len() ==> (found[p] == found[q] <==> are_one(source[p].0, source[q].0))
}

/// Whether a resolved atom is the source atom: its predicate has that name, and that many terms.
pub open spec fn atom_agrees(found: ResolvedAtomView, source: AtomView, catalog: CatalogView) -> bool {
    &&& (found.predicate.0 as int) < catalog.predicates.len()
    &&& catalog.predicates[found.predicate.0 as int].0 == source.predicate.0
    &&& catalog.predicates[found.predicate.0 as int].1 == Some(source.terms.len() as usize)
    &&& found.terms.len() == source.terms.len()
    &&& found.span == source.span
}

/// Whether a resolved rule is the source rule: the same head and the same literals in order, over
/// terms that agree.
pub open spec fn rule_agrees(found: ResolvedRuleView, source: RuleView, catalog: CatalogView) -> bool {
    &&& atom_agrees(found.head, source.head, catalog)
    &&& found.span == source.span
    &&& found.body.len() == source.body.len()
    &&& forall|j: int|
        0 <= j < source.body.len() ==> {
            &&& (#[trigger] found.body[j]).negated == source.body[j].negated
            &&& found.body[j].span == source.body[j].span
            &&& atom_agrees(found.body[j].atom, source.body[j].atom, catalog)
        }
    &&& terms_agree(
        resolved_rule_terms(found),
        rule_terms(source),
        found.variable_names,
        catalog.values,
    )
}

/// Whether names differ but for wildcards.
spec fn names_differ(names: Seq<Seq<char>>) -> bool {
    forall|i: int, j: int|
        #![trigger names[i], names[j]]
        0 <= i < j < names.len() && names[i] == names[j] ==> names[i] == seq!['_']
}

proof fn lemma_find(names: Seq<Seq<char>>, name: Seq<char>)
    ensures
        match resolve::find_variable(names, name) {
            Some(i) => 0 <= i < names.len() && names[i] == name,
            None => forall|i: int| 0 <= i < names.len() ==> #[trigger] names[i] != name,
        },
    decreases names.len(),
{
    if names.len() > 0 {
        let rest = names.drop_last();
        lemma_find(rest, name);
        assert forall|i: int| 0 <= i < rest.len() implies #[trigger] names[i] == rest[i] by {}
    }
}

/// What resolving terms one after the other gives, from no names on.
proof fn lemma_terms_agree(values: Seq<ConstantView>, terms: Seq<(TermView, Span)>)
    requires
        values.len() <= u32::MAX + 1,
        values_differ(values),
        resolve::resolve_terms(values, Seq::empty(), terms).problems.len() == 0,
    ensures
        ({
            let step = resolve::resolve_terms(values, Seq::empty(), terms);
            &&& terms_agree(step.terms, terms, step.names, step.values)
            &&& names_differ(step.names)
            &&& step.names.len() <= u32::MAX + 1
            &&& step.values.len() <= u32::MAX + 1
            &&& values_differ(step.values)
        }),
    decreases terms.len(),
{
    reveal_strlit("_");
    assert("_"@ =~= seq!['_']);
    let step = resolve::resolve_terms(values, Seq::empty(), terms);
    if terms.len() > 0 {
        let rest = terms.drop_last();
        let earlier = resolve::resolve_terms(values, Seq::empty(), rest);
        let term = terms.last().0;
        let n = rest.len() as int;
        assert(earlier.problems.len() == 0) by {
            if earlier.problems.len() > 0 {
                assert(step.problems.len() >= earlier.problems.len());
            }
        }
        lemma_terms_agree(values, rest);
        match term {
            TermView::Variable(name) => {
                lemma_find(earlier.names, name);
            },
            TermView::Constant(value) => {
                catalog::lemma_find_value(earlier.values, value);
            },
        }
        assert(step.terms.len() == n + 1);
        assert forall|p: int| 0 <= p < terms.len() implies stands_for(
            #[trigger] step.terms[p],
            terms[p].0,
            step.names,
            step.values,
        ) by {
            if p < n {
                assert(step.terms[p] == earlier.terms[p]);
                assert(rest[p] == terms[p]);
                assert(stands_for(earlier.terms[p], rest[p].0, earlier.names, earlier.values));
            }
        }
        assert forall|p: int, q: int|
            #![trigger step.terms[p], step.terms[q]]
            0 <= p < q < terms.len() implies (step.terms[p] == step.terms[q] <==> are_one(
            terms[p].0,
            terms[q].0,
        )) by {
            assert(step.terms[p] == earlier.terms[p]);
            assert(rest[p] == terms[p]);
            if q < n {
                assert(step.terms[q] == earlier.terms[q]);
                assert(rest[q] == terms[q]);
            } else {
                assert(stands_for(earlier.terms[p], rest[p].0, earlier.names, earlier.values));
                assert(stands_for(step.terms[q], terms[q].0, step.names, step.values));
            }
        }
    }
}

/// Resolving some terms and then others is resolving all of them.
proof fn lemma_terms_join(
    values: Seq<ConstantView>,
    names: Seq<Seq<char>>,
    a: Seq<(TermView, Span)>,
    b: Seq<(TermView, Span)>,
)
    ensures
        ({
            let first = resolve::resolve_terms(values, names, a);
            let second = resolve::resolve_terms(first.values, first.names, b);
            let both = resolve::resolve_terms(values, names, a + b);
            &&& both.values == second.values
            &&& both.names == second.names
            &&& both.terms == first.terms + second.terms
            &&& both.problems == first.problems + second.problems
        }),
    decreases b.len(),
{
    let first = resolve::resolve_terms(values, names, a);
    if b.len() > 0 {
        lemma_terms_join(values, names, a, b.drop_last());
        assert((a + b).drop_last() =~= a + b.drop_last());
        assert((a + b).last() == b.last());
        let second = resolve::resolve_terms(first.values, first.names, b);
        let both = resolve::resolve_terms(values, names, a + b);
        assert(both.terms =~= first.terms + second.terms);
        assert(both.problems =~= first.problems + second.problems);
    } else {
        assert(a + b =~= a);
        assert(first.terms + Seq::<ResolvedTerm>::empty() =~= first.terms);
        assert(first.problems + Seq::<crate::lexer::DiagnosticView>::empty() =~= first.problems);
    }
}

proof fn lemma_atom_agrees(catalog: CatalogView, names: Seq<Seq<char>>, atom: AtomView)
    requires
        resolve_laws::catalog_fits(catalog),
        resolve::resolve_atom_view(catalog, names, atom).problems.len() == 0,
    ensures
        ({
            let step = resolve::resolve_atom_view(catalog, names, atom);
            let terms = resolve::resolve_terms(catalog.values, names, atom.terms);
            &&& step.atom is Some
            &&& atom_agrees(step.atom->0, atom, step.catalog)
            &&& step.atom->0.terms == terms.terms
            &&& step.names == terms.names
            &&& step.catalog.values == terms.values
            &&& terms.problems.len() == 0
            &&& resolve_laws::catalog_fits(step.catalog)
            &&& resolve_laws::grows_into(catalog, step.catalog)
        }),
{
    resolve_laws::lemma_atom(catalog, names, atom);
    resolve_laws::lemma_declared(catalog, atom.predicate.0, atom.terms.len() as usize);
}

proof fn lemma_atom_stays(found: ResolvedAtomView, source: AtomView, a: CatalogView, b: CatalogView)
    requires
        atom_agrees(found, source, a),
        resolve_laws::grows_into(a, b),
    ensures
        atom_agrees(found, source, b),
{
    let i = found.predicate.0 as int;
    assert(b.predicates[i].0 == a.predicates[i].0);
}

proof fn lemma_body_agrees(catalog: CatalogView, names: Seq<Seq<char>>, body: Seq<LiteralView>)
    requires
        resolve_laws::catalog_fits(catalog),
        resolve::resolve_body(catalog, names, body).problems.len() == 0,
    ensures
        ({
            let step = resolve::resolve_body(catalog, names, body);
            let terms = resolve::resolve_terms(catalog.values, names, body_terms(body));
            &&& step.body.len() == body.len()
            &&& forall|j: int|
                0 <= j < body.len() ==> {
                    &&& (#[trigger] step.body[j]).negated == body[j].negated
                    &&& step.body[j].span == body[j].span
                    &&& atom_agrees(step.body[j].atom, body[j].atom, step.catalog)
                }
            &&& resolved_body_terms(step.body) == terms.terms
            &&& step.names == terms.names
            &&& step.catalog.values == terms.values
            &&& terms.problems.len() == 0
            &&& resolve_laws::catalog_fits(step.catalog)
            &&& resolve_laws::grows_into(catalog, step.catalog)
        }),
    decreases body.len(),
{
    let step = resolve::resolve_body(catalog, names, body);
    if body.len() > 0 {
        let rest = body.drop_last();
        let earlier = resolve::resolve_body(catalog, names, rest);
        lemma_body_agrees(catalog, names, rest);
        lemma_atom_agrees(earlier.catalog, earlier.names, body.last().atom);
        lemma_terms_join(catalog.values, names, body_terms(rest), body.last().atom.terms);
        resolve_laws::lemma_grows_transitive(catalog, earlier.catalog, step.catalog);
        assert(step.body.drop_last() =~= earlier.body);
        assert forall|j: int| 0 <= j < body.len() implies {
            &&& (#[trigger] step.body[j]).negated == body[j].negated
            &&& step.body[j].span == body[j].span
            &&& atom_agrees(step.body[j].atom, body[j].atom, step.catalog)
        } by {
            if j < rest.len() {
                assert(step.body[j] == earlier.body[j]);
                assert(rest[j] == body[j]);
                lemma_atom_stays(
                    earlier.body[j].atom,
                    rest[j].atom,
                    earlier.catalog,
                    step.catalog,
                );
            }
        }
    }
}

/// A rule that resolves is the source rule: its predicates have the names and arities that are
/// written, its constants are those that are written, and two of its terms are one variable exactly
/// where both are written as the same name, other than the wildcard.
pub proof fn law_resolved_rule_keeps_its_source(catalog: CatalogView, rule: RuleView)
    requires
        resolve_laws::catalog_fits(catalog),
        values_differ(catalog.values),
    ensures
        resolve::resolve_rule_view(catalog, rule).rule matches Some(found) ==> rule_agrees(
            found,
            rule,
            resolve::resolve_rule_view(catalog, rule).catalog,
        ) && values_differ(resolve::resolve_rule_view(catalog, rule).catalog.values),
{
    let step = resolve::resolve_rule_view(catalog, rule);
    if let Some(found) = step.rule {
        let head = resolve::resolve_atom_view(catalog, Seq::empty(), rule.head);
        let body = resolve::resolve_body(head.catalog, head.names, rule.body);
        assert(head.problems.len() == 0 && body.problems.len() == 0);
        lemma_atom_agrees(catalog, Seq::empty(), rule.head);
        lemma_body_agrees(head.catalog, head.names, rule.body);
        lemma_atom_stays(found.head, rule.head, head.catalog, body.catalog);
        lemma_terms_join(catalog.values, Seq::empty(), rule.head.terms, body_terms(rule.body));
        lemma_terms_agree(catalog.values, rule_terms(rule));
    }
}

/// A rule that agrees with its source still does when the catalog has grown.
proof fn lemma_rule_stays(found: ResolvedRuleView, source: RuleView, a: CatalogView, b: CatalogView)
    requires
        rule_agrees(found, source, a),
        resolve_laws::grows_into(a, b),
    ensures
        rule_agrees(found, source, b),
{
    lemma_atom_stays(found.head, source.head, a, b);
    assert forall|j: int| 0 <= j < source.body.len() implies atom_agrees(
        (#[trigger] found.body[j]).atom,
        source.body[j].atom,
        b,
    ) by {
        lemma_atom_stays(found.body[j].atom, source.body[j].atom, a, b);
    }
    let all = resolved_rule_terms(found);
    let written = rule_terms(source);
    assert forall|p: int| 0 <= p < written.len() implies stands_for(
        #[trigger] all[p],
        written[p].0,
        found.variable_names,
        b.values,
    ) by {
        assert(stands_for(all[p], written[p].0, found.variable_names, a.values));
    }
}

/// Whether what was resolved so far agrees with the first declarations and rules.
spec fn step_agrees(step: resolve::StatementsStep, source: ProgramView, d: int, r: int) -> bool {
    &&& step.rules.len() == r
    &&& forall|i: int|
        0 <= i < r ==> rule_agrees(#[trigger] step.rules[i], source.rules[i], step.catalog)
    &&& step.declared.len() == d
    &&& forall|i: int|
        0 <= i < d ==> {
            let id = (#[trigger] step.declared[i]).0 as int;
            &&& id < step.catalog.predicates.len()
            &&& step.catalog.predicates[id] == (
                source.declarations[i].predicate.0,
                Some(source.declarations[i].arity),
            )
        }
    &&& resolve_laws::catalog_fits(step.catalog)
    &&& values_differ(step.catalog.values)
}

proof fn lemma_problems_stay(step: resolve::StatementsStep, source: ProgramView, d: int, r: int)
    ensures
        resolve::resolve_statements(step, source, d, r).problems.len() >= step.problems.len(),
    decreases source.declarations.len() - d + source.rules.len() - r,
{
    if d < 0 || d > source.declarations.len() || r < 0 || r > source.rules.len() {
    } else if d < source.declarations.len() && (r == source.rules.len()
        || resolve::declared_before(source.declarations[d], source.rules[r])) {
        lemma_problems_stay(
            resolve::with_declaration(step, source.declarations[d]),
            source,
            d + 1,
            r,
        );
    } else if r < source.rules.len() {
        lemma_problems_stay(
            resolve::with_source_rule(step, source.rules[r]),
            source,
            d,
            r + 1,
        );
    }
}

proof fn lemma_steps_agree(step: resolve::StatementsStep, source: ProgramView, d: int, r: int)
    requires
        0 <= d <= source.declarations.len(),
        0 <= r <= source.rules.len(),
        step_agrees(step, source, d, r),
        resolve::resolve_statements(step, source, d, r).problems.len() == 0,
    ensures
        step_agrees(
            resolve::resolve_statements(step, source, d, r),
            source,
            source.declarations.len() as int,
            source.rules.len() as int,
        ),
    decreases source.declarations.len() - d + source.rules.len() - r,
{
    if d < source.declarations.len() && (r == source.rules.len() || resolve::declared_before(
        source.declarations[d],
        source.rules[r],
    )) {
        let declaration = source.declarations[d];
        let next = resolve::with_declaration(step, declaration);
        lemma_problems_stay(next, source, d + 1, r);
        resolve_laws::lemma_declared(step.catalog, declaration.predicate.0, declaration.arity);
        assert(resolve_laws::grows_into(step.catalog, next.catalog));
        assert forall|i: int| 0 <= i < r implies rule_agrees(
            #[trigger] next.rules[i],
            source.rules[i],
            next.catalog,
        ) by {
            assert(next.rules[i] == step.rules[i]);
            lemma_rule_stays(step.rules[i], source.rules[i], step.catalog, next.catalog);
        }
        assert forall|i: int| 0 <= i < d + 1 implies {
            let id = (#[trigger] next.declared[i]).0 as int;
            &&& id < next.catalog.predicates.len()
            &&& next.catalog.predicates[id] == (
                source.declarations[i].predicate.0,
                Some(source.declarations[i].arity),
            )
        } by {
            if i < d {
                assert(next.declared[i] == step.declared[i]);
                let id = step.declared[i].0 as int;
                assert(next.catalog.predicates[id].0 == step.catalog.predicates[id].0);
            }
        }
        lemma_steps_agree(next, source, d + 1, r);
    } else if r < source.rules.len() {
        let rule = source.rules[r];
        let next = resolve::with_source_rule(step, rule);
        lemma_problems_stay(next, source, d, r + 1);
        law_resolved_rule_keeps_its_source(step.catalog, rule);
        resolve_laws::law_resolved_rule_is_safe(step.catalog, rule);
        let head = resolve::resolve_atom_view(step.catalog, Seq::empty(), rule.head);
        assert(resolve::resolve_rule_view(step.catalog, rule).problems.len() == 0);
        lemma_atom_agrees(step.catalog, Seq::empty(), rule.head);
        assert forall|i: int| 0 <= i < r + 1 implies rule_agrees(
            #[trigger] next.rules[i],
            source.rules[i],
            next.catalog,
        ) by {
            if i < r {
                assert(next.rules[i] == step.rules[i]);
                lemma_rule_stays(step.rules[i], source.rules[i], step.catalog, next.catalog);
            }
        }
        assert forall|i: int| 0 <= i < d implies {
            let id = (#[trigger] next.declared[i]).0 as int;
            &&& id < next.catalog.predicates.len()
            &&& next.catalog.predicates[id] == (
                source.declarations[i].predicate.0,
                Some(source.declarations[i].arity),
            )
        } by {
            let id = step.declared[i].0 as int;
            assert(next.catalog.predicates[id].0 == step.catalog.predicates[id].0);
        }
        lemma_steps_agree(next, source, d, r + 1);
    }
}

proof fn lemma_outputs_agree(catalog: CatalogView, outputs: Seq<(Seq<char>, Span)>)
    requires
        resolve_laws::catalog_fits(catalog),
        resolve::resolve_outputs(catalog, outputs).problems.len() == 0,
    ensures
        ({
            let ids = resolve::resolve_outputs(catalog, outputs).ids;
            &&& ids.len() == outputs.len()
            &&& forall|i: int|
                0 <= i < ids.len() ==> {
                    &&& ((#[trigger] ids[i]).0 as int) < catalog.predicates.len()
                    &&& catalog.predicates[ids[i].0 as int].0 == outputs[i].0
                }
        }),
    decreases outputs.len(),
{
    if outputs.len() > 0 {
        let rest = outputs.drop_last();
        lemma_outputs_agree(catalog, rest);
        catalog::lemma_find_name(catalog.predicates, outputs.last().0);
        let ids = resolve::resolve_outputs(catalog, outputs).ids;
        let earlier = resolve::resolve_outputs(catalog, rest).ids;
        assert forall|i: int| 0 <= i < ids.len() implies {
            &&& ((#[trigger] ids[i]).0 as int) < catalog.predicates.len()
            &&& catalog.predicates[ids[i].0 as int].0 == outputs[i].0
        } by {
            if i < earlier.len() {
                assert(ids[i] == earlier[i]);
                assert(rest[i] == outputs[i]);
            }
        }
    }
}

proof fn lemma_inputs_agree(source: ProgramView, inputs: Seq<(Seq<char>, Span)>)
    ensures
        resolve::input_problems(source, inputs).len() == 0 <==> forall|k: int|
            0 <= k < inputs.len() ==> {
                &&& exists|i: int|
                    0 <= i < source.declarations.len() && (
                    #[trigger] source.declarations[i]).predicate.0 == (#[trigger] inputs[k]).0
                &&& forall|i: int|
                    0 <= i < source.rules.len() && (#[trigger] source.rules[i]).body.len() > 0
                        ==> source.rules[i].head.predicate.0 != inputs[k].0
            },
    decreases inputs.len(),
{
    if inputs.len() > 0 {
        let rest = inputs.drop_last();
        let n = rest.len() as int;
        lemma_inputs_agree(source, rest);
        let ok = |k: int|
            {
                &&& exists|i: int|
                    0 <= i < source.declarations.len() && (
                    #[trigger] source.declarations[i]).predicate.0 == inputs[k].0
                &&& forall|i: int|
                    0 <= i < source.rules.len() && (#[trigger] source.rules[i]).body.len() > 0
                        ==> source.rules[i].head.predicate.0 != inputs[k].0
            };
        assert(resolve::input_problems(source, inputs).len() == 0 <==> resolve::input_problems(
            source,
            rest,
        ).len() == 0 && ok(n));
        assert forall|k: int| 0 <= k < n implies #[trigger] rest[k] == inputs[k] by {}
        if resolve::input_problems(source, rest).len() == 0 && ok(n) {
            assert forall|k: int| 0 <= k < inputs.len() implies {
                &&& exists|i: int|
                    0 <= i < source.declarations.len() && (
                    #[trigger] source.declarations[i]).predicate.0 == (#[trigger] inputs[k]).0
                &&& forall|i: int|
                    0 <= i < source.rules.len() && (#[trigger] source.rules[i]).body.len() > 0
                        ==> source.rules[i].head.predicate.0 != inputs[k].0
            } by {
                if k < n {
                    assert(rest[k] == inputs[k]);
                }
            }
        }
        if forall|k: int|
            0 <= k < inputs.len() ==> {
                &&& exists|i: int|
                    0 <= i < source.declarations.len() && (
                    #[trigger] source.declarations[i]).predicate.0 == (#[trigger] inputs[k]).0
                &&& forall|i: int|
                    0 <= i < source.rules.len() && (#[trigger] source.rules[i]).body.len() > 0
                        ==> source.rules[i].head.predicate.0 != inputs[k].0
            } {
            assert(inputs[n] == inputs.last());
            assert forall|k: int| 0 <= k < rest.len() implies {
                &&& exists|i: int|
                    0 <= i < source.declarations.len() && (
                    #[trigger] source.declarations[i]).predicate.0 == (#[trigger] rest[k]).0
                &&& forall|i: int|
                    0 <= i < source.rules.len() && (#[trigger] source.rules[i]).body.len() > 0
                        ==> source.rules[i].head.predicate.0 != rest[k].0
            } by {
                assert(rest[k] == inputs[k]);
            }
            assert(ok(n));
        }
    }
}

/// A program that resolves is the source program: its rules in order, each the source rule, and its
/// declarations and outputs in order, under the names that are written. Every input is declared, and
/// no rule with a body derives it.
pub proof fn law_resolved_program_keeps_its_source(catalog: CatalogView, source: ProgramView)
    requires
        resolve_laws::catalog_fits(catalog),
        values_differ(catalog.values),
    ensures
        ({
            let (output, after) = resolve::resolved(catalog, source);
            let program = output.program;
            output.diagnostics.len() == 0 ==> {
                &&& program.rules.len() == source.rules.len()
                &&& forall|i: int|
                    0 <= i < source.rules.len() ==> rule_agrees(
                        #[trigger] program.rules[i],
                        source.rules[i],
                        after,
                    )
                &&& program.declarations.len() == source.declarations.len()
                &&& forall|i: int|
                    0 <= i < source.declarations.len() ==> {
                        let id = (#[trigger] program.declarations[i]).0 as int;
                        &&& id < after.predicates.len()
                        &&& after.predicates[id] == (
                            source.declarations[i].predicate.0,
                            Some(source.declarations[i].arity),
                        )
                    }
                &&& program.outputs.len() == source.outputs.len()
                &&& forall|i: int|
                    0 <= i < source.outputs.len() ==> {
                        &&& ((#[trigger] program.outputs[i]).0 as int) < after.predicates.len()
                        &&& after.predicates[program.outputs[i].0 as int].0 == source.outputs[i].0
                    }
                &&& forall|k: int|
                    0 <= k < source.inputs.len() ==> {
                        &&& exists|i: int|
                            0 <= i < source.declarations.len() && (
                            #[trigger] source.declarations[i]).predicate.0 == (
                            #[trigger] source.inputs[k]).0
                        &&& forall|i: int|
                            0 <= i < source.rules.len() && (
                            #[trigger] source.rules[i]).body.len() > 0
                                ==> source.rules[i].head.predicate.0 != source.inputs[k].0
                    }
            }
        }),
{
    let (output, after) = resolve::resolved(catalog, source);
    if output.diagnostics.len() == 0 {
        let first = resolve::StatementsStep {
            catalog,
            declared: Seq::empty(),
            rules: Seq::empty(),
            problems: Seq::empty(),
        };
        lemma_steps_agree(first, source, 0, 0);
        lemma_outputs_agree(after, source.outputs);
        lemma_inputs_agree(source, source.inputs);
    }
}

/// Whether the arities of a catalog are those that names have.
pub open spec fn keeps_arities(catalog: CatalogView, arity: spec_fn(Seq<char>) -> usize) -> bool {
    forall|i: int|
        0 <= i < catalog.predicates.len() ==> ((#[trigger] catalog.predicates[i]).1 matches Some(n)
            ==> n == arity(catalog.predicates[i].0))
}

/// Whether an atom has as many terms as its predicate takes.
pub open spec fn atom_fits(atom: AtomView, arity: spec_fn(Seq<char>) -> usize) -> bool {
    atom.terms.len() == arity(atom.predicate.0)
}

/// Whether a positive literal has a variable of a name, which is not the wildcard.
pub open spec fn is_bound(body: Seq<LiteralView>, name: Seq<char>) -> bool {
    &&& name != seq!['_']
    &&& exists|j: int, k: int|
        #![trigger body[j].atom.terms[k]]
        0 <= j < body.len() && !body[j].negated && 0 <= k < body[j].atom.terms.len()
            && body[j].atom.terms[k].0 == TermView::Variable(name)
}

/// Whether every variable among terms is bound by a positive literal.
pub open spec fn all_bound(terms: Seq<(TermView, Span)>, body: Seq<LiteralView>) -> bool {
    forall|k: int|
        0 <= k < terms.len() ==> ((#[trigger] terms[k]).0 matches TermView::Variable(name)
            ==> is_bound(body, name))
}

/// Whether a rule is in order: every atom has as many terms as its predicate takes, and the
/// variables of the head and of negated literals are bound.
pub open spec fn rule_in_order(rule: RuleView, arity: spec_fn(Seq<char>) -> usize) -> bool {
    &&& atom_fits(rule.head, arity)
    &&& all_bound(rule.head.terms, rule.body)
    &&& forall|j: int|
        0 <= j < rule.body.len() ==> {
            &&& atom_fits((#[trigger] rule.body[j]).atom, arity)
            &&& rule.body[j].negated ==> all_bound(rule.body[j].atom.terms, rule.body)
        }
}

proof fn lemma_terms_resolve(
    values: Seq<ConstantView>,
    names: Seq<Seq<char>>,
    terms: Seq<(TermView, Span)>,
)
    requires
        values.len() + terms.len() <= u32::MAX + 1,
        names.len() + terms.len() <= u32::MAX + 1,
    ensures
        ({
            let step = resolve::resolve_terms(values, names, terms);
            &&& step.problems.len() == 0
            &&& step.terms.len() == terms.len()
            &&& step.values.len() <= values.len() + terms.len()
            &&& step.names.len() <= names.len() + terms.len()
        }),
    decreases terms.len(),
{
    if terms.len() > 0 {
        lemma_terms_resolve(values, names, terms.drop_last());
    }
}

proof fn lemma_atom_resolves(
    catalog: CatalogView,
    names: Seq<Seq<char>>,
    atom: AtomView,
    arity: spec_fn(Seq<char>) -> usize,
)
    requires
        catalog.predicates.len() < u32::MAX + 1,
        catalog.values.len() + atom.terms.len() <= u32::MAX + 1,
        names.len() + atom.terms.len() <= u32::MAX + 1,
        keeps_arities(catalog, arity),
        atom_fits(atom, arity),
    ensures
        ({
            let step = resolve::resolve_atom_view(catalog, names, atom);
            &&& step.problems.len() == 0
            &&& step.atom is Some
            &&& step.catalog.predicates.len() <= catalog.predicates.len() + 1
            &&& step.catalog.values.len() <= catalog.values.len() + atom.terms.len()
            &&& step.names.len() <= names.len() + atom.terms.len()
            &&& keeps_arities(step.catalog, arity)
        }),
{
    lemma_terms_resolve(catalog.values, names, atom.terms);
    catalog::lemma_find_name(catalog.predicates, atom.predicate.0);
}

proof fn lemma_body_resolves(
    catalog: CatalogView,
    names: Seq<Seq<char>>,
    body: Seq<LiteralView>,
    arity: spec_fn(Seq<char>) -> usize,
)
    requires
        catalog.predicates.len() + body.len() <= u32::MAX + 1,
        catalog.values.len() + body_terms(body).len() <= u32::MAX + 1,
        names.len() + body_terms(body).len() <= u32::MAX + 1,
        keeps_arities(catalog, arity),
        forall|j: int| 0 <= j < body.len() ==> atom_fits((#[trigger] body[j]).atom, arity),
    ensures
        ({
            let step = resolve::resolve_body(catalog, names, body);
            &&& step.problems.len() == 0
            &&& step.catalog.predicates.len() <= catalog.predicates.len() + body.len()
            &&& step.catalog.values.len() <= catalog.values.len() + body_terms(body).len()
            &&& step.names.len() <= names.len() + body_terms(body).len()
            &&& keeps_arities(step.catalog, arity)
        }),
    decreases body.len(),
{
    if body.len() > 0 {
        let rest = body.drop_last();
        assert forall|j: int| 0 <= j < rest.len() implies atom_fits(
            (#[trigger] rest[j]).atom,
            arity,
        ) by {
            assert(rest[j] == body[j]);
        }
        lemma_body_resolves(catalog, names, rest, arity);
        let earlier = resolve::resolve_body(catalog, names, rest);
        assert(body[body.len() - 1] == body.last());
        lemma_atom_resolves(earlier.catalog, earlier.names, body.last().atom, arity);
    }
}

/// Where a term of a literal stands among all terms.
proof fn lemma_term_place(
    body: Seq<LiteralView>,
    found: Seq<ResolvedLiteralView>,
    j: int,
    k: int,
) -> (q: int)
    requires
        body.len() == found.len(),
        forall|i: int|
            0 <= i < body.len() ==> (#[trigger] found[i]).atom.terms.len()
                == body[i].atom.terms.len(),
        0 <= j < body.len(),
        0 <= k < body[j].atom.terms.len(),
    ensures
        0 <= q < body_terms(body).len(),
        body_terms(body).len() == resolved_body_terms(found).len(),
        body_terms(body)[q] == body[j].atom.terms[k],
        resolved_body_terms(found)[q] == found[j].atom.terms[k],
    decreases body.len(),
{
    let rest = body.drop_last();
    let kept = found.drop_last();
    lemma_terms_count(rest, kept);
    assert(found[body.len() - 1].atom.terms.len() == body.last().atom.terms.len());
    if j == body.len() - 1 {
        body_terms(rest).len() + k
    } else {
        assert forall|i: int| 0 <= i < rest.len() implies (#[trigger] kept[i]).atom.terms.len()
            == rest[i].atom.terms.len() by {
            assert(kept[i] == found[i]);
        }
        assert(rest[j] == body[j] && kept[j] == found[j]);
        lemma_term_place(rest, kept, j, k)
    }
}

proof fn lemma_terms_count(body: Seq<LiteralView>, found: Seq<ResolvedLiteralView>)
    requires
        body.len() == found.len(),
        forall|i: int|
            0 <= i < body.len() ==> (#[trigger] found[i]).atom.terms.len()
                == body[i].atom.terms.len(),
    ensures
        body_terms(body).len() == resolved_body_terms(found).len(),
    decreases body.len(),
{
    if body.len() > 0 {
        let rest = body.drop_last();
        let kept = found.drop_last();
        assert forall|i: int| 0 <= i < rest.len() implies (#[trigger] kept[i]).atom.terms.len()
            == rest[i].atom.terms.len() by {
            assert(kept[i] == found[i]);
        }
        lemma_terms_count(rest, kept);
        assert(found[body.len() - 1].atom.terms.len() == body.last().atom.terms.len());
    }
}

proof fn lemma_none_unbound(
    terms: Seq<ResolvedTerm>,
    source: Seq<(TermView, Span)>,
    body: Seq<ResolvedLiteralView>,
    names: Seq<Seq<char>>,
    prefix: Seq<char>,
    suffix: Seq<char>,
    count: int,
)
    requires
        count <= terms.len(),
        forall|i: int|
            0 <= i < terms.len() ==> ((#[trigger] terms[i]) matches ResolvedTerm::Variable(v)
                ==> resolve::binds(body, v)),
    ensures
        resolve::unbound_problems(terms, source, body, names, prefix, suffix, count).len() == 0,
    decreases count,
{
    if count > 0 {
        lemma_none_unbound(terms, source, body, names, prefix, suffix, count - 1);
        assert(terms[count - 1] matches ResolvedTerm::Variable(v) ==> resolve::binds(body, v));
    }
}

proof fn lemma_none_negated(
    body: Seq<ResolvedLiteralView>,
    source: Seq<LiteralView>,
    names: Seq<Seq<char>>,
    count: int,
)
    requires
        count <= body.len(),
        forall|j: int, i: int|
            #![trigger body[j].atom.terms[i]]
            0 <= j < body.len() && 0 <= i < body[j].atom.terms.len() && body[j].negated ==> (
            body[j].atom.terms[i] matches ResolvedTerm::Variable(v) ==> resolve::binds(body, v)),
    ensures
        resolve::negation_problems(body, source, names, count).len() == 0,
    decreases count,
{
    if count > 0 {
        lemma_none_negated(body, source, names, count - 1);
        let literal = body[count - 1];
        if literal.negated {
            assert forall|i: int| 0 <= i < literal.atom.terms.len() implies ((
            #[trigger] literal.atom.terms[i]) matches ResolvedTerm::Variable(v) ==> resolve::binds(
                body,
                v,
            )) by {
                assert(body[count - 1].atom.terms[i] == literal.atom.terms[i]);
            }
            lemma_none_unbound(
                literal.atom.terms,
                source[count - 1].atom.terms,
                body,
                names,
                "variable "@,
                " in a negated atom is not bound by a positive body atom"@,
                resolve::least(literal.atom.terms.len(), source[count - 1].atom.terms.len()),
            );
        }
    }
}

/// A rule whose atoms have the terms that their predicates take, and whose variables are bound,
/// resolves without a problem where there is room for its names.
pub proof fn law_rule_in_order_resolves(
    catalog: CatalogView,
    rule: RuleView,
    arity: spec_fn(Seq<char>) -> usize,
)
    requires
        keeps_arities(catalog, arity),
        values_differ(catalog.values),
        rule_in_order(rule, arity),
        catalog.predicates.len() + rule.body.len() + 1 <= u32::MAX + 1,
        catalog.values.len() + rule_terms(rule).len() <= u32::MAX + 1,
    ensures
        ({
            let step = resolve::resolve_rule_view(catalog, rule);
            &&& step.problems.len() == 0
            &&& step.rule is Some
            &&& keeps_arities(step.catalog, arity)
            &&& step.catalog.predicates.len() <= catalog.predicates.len() + rule.body.len() + 1
            &&& step.catalog.values.len() <= catalog.values.len() + rule_terms(rule).len()
        }),
{
    let step = resolve::resolve_rule_view(catalog, rule);
    let none = Seq::<Seq<char>>::empty();
    let head = resolve::resolve_atom_view(catalog, none, rule.head);
    let body = resolve::resolve_body(head.catalog, head.names, rule.body);
    lemma_atom_resolves(catalog, none, rule.head, arity);
    lemma_body_resolves(head.catalog, head.names, rule.body, arity);
    lemma_atom_agrees(catalog, none, rule.head);
    lemma_body_agrees(head.catalog, head.names, rule.body);
    lemma_terms_join(catalog.values, none, rule.head.terms, body_terms(rule.body));
    lemma_terms_agree(catalog.values, rule_terms(rule));
    lemma_terms_count(rule.body, body.body);
    let written = rule_terms(rule);
    let all = head.atom->0.terms + resolved_body_terms(body.body);
    let n = rule.head.terms.len() as int;
    assert(all == resolve::resolve_terms(catalog.values, none, written).terms);
    assert(all.skip(n) =~= resolved_body_terms(body.body));
    assert forall|i: int| 0 <= i < head.atom->0.terms.len() implies ((
    #[trigger] head.atom->0.terms[i]) matches ResolvedTerm::Variable(v) ==> resolve::binds(
        body.body,
        v,
    )) by {
        assert(all[i] == head.atom->0.terms[i]);
        assert(written[i] == rule.head.terms[i]);
        if let ResolvedTerm::Variable(v) = head.atom->0.terms[i] {
            lemma_bound_by(rule, body.body, all, i, v);
        }
    }
    assert forall|j: int, i: int|
        #![trigger body.body[j].atom.terms[i]]
        0 <= j < body.body.len() && 0 <= i < body.body[j].atom.terms.len() && body.body[j].negated implies (
    body.body[j].atom.terms[i] matches ResolvedTerm::Variable(v) ==> resolve::binds(
        body.body,
        v,
    )) by {
        assert(body.body[j].negated == rule.body[j].negated);
        let q = lemma_term_place(rule.body, body.body, j, i);
        assert(all[n + q] == body.body[j].atom.terms[i]);
        assert(written[n + q] == rule.body[j].atom.terms[i]);
        if let ResolvedTerm::Variable(v) = body.body[j].atom.terms[i] {
            assert(rule.body[j].atom.terms[i].0 matches TermView::Variable(name) ==> is_bound(
                rule.body,
                name,
            ));
            lemma_bound_by(rule, body.body, all, n + q, v);
        }
    }
    lemma_none_unbound(
        head.atom->0.terms,
        rule.head.terms,
        body.body,
        body.names,
        "head variable "@,
        " is not bound by a positive body atom"@,
        resolve::least(head.atom->0.terms.len(), rule.head.terms.len()),
    );
    lemma_none_negated(body.body, rule.body, body.names, body.body.len() as int);
}

/// A variable that a positive literal binds by name is bound.
proof fn lemma_bound_by(
    rule: RuleView,
    body: Seq<ResolvedLiteralView>,
    all: Seq<ResolvedTerm>,
    p: int,
    v: VariableId,
)
    requires
        body.len() == rule.body.len(),
        forall|i: int|
            0 <= i < body.len() ==> {
                &&& (#[trigger] body[i]).atom.terms.len() == rule.body[i].atom.terms.len()
                &&& body[i].negated == rule.body[i].negated
            },
        all.len() == rule_terms(rule).len(),
        all.skip(rule.head.terms.len() as int) == resolved_body_terms(body),
        forall|a: int, b: int|
            #![trigger all[a], all[b]]
            0 <= a < b < all.len() ==> (all[a] == all[b] <==> are_one(
                rule_terms(rule)[a].0,
                rule_terms(rule)[b].0,
            )),
        0 <= p < all.len(),
        all[p] == ResolvedTerm::Variable(v),
        rule_terms(rule)[p].0 is Variable,
        is_bound(rule.body, rule_terms(rule)[p].0->Variable_0),
    ensures
        resolve::binds(body, v),
{
    let name = rule_terms(rule)[p].0->Variable_0;
    let n = rule.head.terms.len() as int;
    let (j, k) = choose|j: int, k: int|
        #![trigger rule.body[j].atom.terms[k]]
        0 <= j < rule.body.len() && !rule.body[j].negated && 0 <= k < rule.body[j].atom.terms.len()
            && rule.body[j].atom.terms[k].0 == TermView::Variable(name);
    let q = lemma_term_place(rule.body, body, j, k);
    assert(rule_terms(rule)[n + q] == rule.body[j].atom.terms[k]);
    assert(all[n + q] == all.skip(n)[q]);
    assert(all[n + q] == body[j].atom.terms[k]);
    if p < n + q {
        assert(all[p] == all[n + q]);
    } else if n + q < p {
        assert(all[n + q] == all[p]);
    }
    assert(body[j].atom.terms.contains(ResolvedTerm::Variable(v)));
    assert(!body[j].negated);
}

/// How many predicates the rules of a program mention from one on, counted as often as they do.
pub open spec fn mentions_from(rules: Seq<RuleView>, r: int) -> nat
    decreases rules.len() - r,
{
    if 0 <= r < rules.len() {
        rules[r].body.len() + 1 + mentions_from(rules, r + 1)
    } else {
        0
    }
}

/// How many terms the rules of a program have from one on.
pub open spec fn terms_from(rules: Seq<RuleView>, r: int) -> nat
    decreases rules.len() - r,
{
    if 0 <= r < rules.len() {
        rule_terms(rules[r]).len() + terms_from(rules, r + 1)
    } else {
        0
    }
}

proof fn lemma_statements_resolve(
    step: resolve::StatementsStep,
    source: ProgramView,
    d: int,
    r: int,
    arity: spec_fn(Seq<char>) -> usize,
)
    requires
        0 <= d <= source.declarations.len(),
        0 <= r <= source.rules.len(),
        step.problems.len() == 0,
        keeps_arities(step.catalog, arity),
        values_differ(step.catalog.values),
        step.catalog.predicates.len() + (source.declarations.len() - d) + mentions_from(
            source.rules,
            r,
        ) <= u32::MAX + 1,
        step.catalog.values.len() + terms_from(source.rules, r) <= u32::MAX + 1,
        forall|i: int| 0 <= i < source.rules.len() ==> rule_in_order(#[trigger] source.rules[i], arity),
        forall|i: int|
            0 <= i < source.declarations.len() ==> (#[trigger] source.declarations[i]).arity == arity(
                source.declarations[i].predicate.0,
            ),
    ensures
        resolve::resolve_statements(step, source, d, r).problems.len() == 0,
    decreases source.declarations.len() - d + source.rules.len() - r,
{
    if d < source.declarations.len() && (r == source.rules.len() || resolve::declared_before(
        source.declarations[d],
        source.rules[r],
    )) {
        let declaration = source.declarations[d];
        let next = resolve::with_declaration(step, declaration);
        catalog::lemma_find_name(step.catalog.predicates, declaration.predicate.0);
        assert(next.problems.len() == 0);
        assert(keeps_arities(next.catalog, arity));
        lemma_statements_resolve(next, source, d + 1, r, arity);
    } else if r < source.rules.len() {
        let rule = source.rules[r];
        let next = resolve::with_source_rule(step, rule);
        law_rule_in_order_resolves(step.catalog, rule, arity);
        law_resolved_rule_keeps_its_source(step.catalog, rule);
        lemma_statements_resolve(next, source, d, r + 1, arity);
    }
}

/// A program whose rules and declarations are in order, and whose inputs are declared and underived,
/// has no problems but those of its outputs, where there is room for its names.
pub proof fn law_program_in_order_resolves(
    catalog: CatalogView,
    source: ProgramView,
    arity: spec_fn(Seq<char>) -> usize,
)
    requires
        keeps_arities(catalog, arity),
        values_differ(catalog.values),
        catalog.predicates.len() + source.declarations.len() + mentions_from(source.rules, 0)
            <= u32::MAX + 1,
        catalog.values.len() + terms_from(source.rules, 0) <= u32::MAX + 1,
        forall|i: int| 0 <= i < source.rules.len() ==> rule_in_order(#[trigger] source.rules[i], arity),
        forall|i: int|
            0 <= i < source.declarations.len() ==> (#[trigger] source.declarations[i]).arity == arity(
                source.declarations[i].predicate.0,
            ),
        forall|k: int|
            0 <= k < source.inputs.len() ==> {
                &&& exists|i: int|
                    0 <= i < source.declarations.len() && (
                    #[trigger] source.declarations[i]).predicate.0 == (
                    #[trigger] source.inputs[k]).0
                &&& forall|i: int|
                    0 <= i < source.rules.len() && (#[trigger] source.rules[i]).body.len() > 0
                        ==> source.rules[i].head.predicate.0 != source.inputs[k].0
            },
    ensures
        ({
            let (output, after) = resolve::resolved(catalog, source);
            output.diagnostics.len() == 0 <==> forall|k: int|
                0 <= k < source.outputs.len() ==> has_arity(after, (#[trigger] source.outputs[k]).0)
        }),
{
    let first = resolve::StatementsStep {
        catalog,
        declared: Seq::empty(),
        rules: Seq::empty(),
        problems: Seq::empty(),
    };
    lemma_statements_resolve(first, source, 0, 0, arity);
    lemma_inputs_agree(source, source.inputs);
    lemma_outputs_known(resolve::resolved(catalog, source).1, source.outputs);
}

/// Whether the first predicate of a name has an arity.
pub open spec fn has_arity(catalog: CatalogView, name: Seq<char>) -> bool {
    exists|i: int|
        0 <= i < catalog.predicates.len() && (#[trigger] catalog.predicates[i]).0 == name
            && catalog.predicates[i].1 is Some && forall|j: int|
            0 <= j < i ==> (#[trigger] catalog.predicates[j]).0 != name
}

proof fn lemma_outputs_known(catalog: CatalogView, outputs: Seq<(Seq<char>, Span)>)
    ensures
        resolve::resolve_outputs(catalog, outputs).problems.len() == 0 <==> forall|k: int|
            0 <= k < outputs.len() ==> has_arity(catalog, (#[trigger] outputs[k]).0),
    decreases outputs.len(),
{
    if outputs.len() > 0 {
        let rest = outputs.drop_last();
        let n = rest.len() as int;
        let name = outputs.last().0;
        lemma_outputs_known(catalog, rest);
        catalog::lemma_find_name(catalog.predicates, name);
        assert(has_arity(catalog, name) <==> (catalog::find_name(catalog.predicates, name) matches Some(
            i,
        ) && catalog.predicates[i].1 is Some)) by {
            if has_arity(catalog, name) {
                let i = choose|i: int|
                    0 <= i < catalog.predicates.len() && (#[trigger] catalog.predicates[i]).0
                        == name && catalog.predicates[i].1 is Some && forall|j: int|
                        0 <= j < i ==> (#[trigger] catalog.predicates[j]).0 != name;
            }
        }
        assert(outputs[n] == outputs.last());
        assert forall|k: int| 0 <= k < n implies #[trigger] rest[k] == outputs[k] by {}
        if forall|k: int| 0 <= k < outputs.len() ==> has_arity(catalog, (#[trigger] outputs[k]).0) {
            assert forall|k: int| 0 <= k < rest.len() implies has_arity(
                catalog,
                (#[trigger] rest[k]).0,
            ) by {
                assert(rest[k] == outputs[k]);
            }
            assert(has_arity(catalog, outputs[n].0));
        }
        if resolve::resolve_outputs(catalog, outputs).problems.len() == 0 {
            assert forall|k: int| 0 <= k < outputs.len() implies has_arity(
                catalog,
                (#[trigger] outputs[k]).0,
            ) by {
                if k < n {
                    assert(rest[k] == outputs[k]);
                }
            }
        }
    }
}

/// Whether two source terms are the same variable: the wildcard is never the same as another one.
pub open spec fn same_variable(a: TermView, b: TermView) -> bool {
    match (a, b) {
        (TermView::Variable(x), TermView::Variable(y)) => x == y && x != seq!['_'],
        _ => false,
    }
}

proof fn lemma_variables(values: Seq<ConstantView>, terms: Seq<(TermView, Span)>)
    requires
        resolve::resolve_terms(values, Seq::empty(), terms).problems.len() == 0,
    ensures
        ({
            let step = resolve::resolve_terms(values, Seq::empty(), terms);
            &&& step.terms.len() == terms.len()
            &&& step.names.len() <= u32::MAX + 1
            &&& names_differ(step.names)
            &&& forall|p: int|
                0 <= p < terms.len() ==> match terms[p].0 {
                    TermView::Variable(name) => #[trigger] step.terms[p] is Variable
                        && step.terms[p]->Variable_0.0 < step.names.len()
                        && step.names[step.terms[p]->Variable_0.0 as int] == name,
                    TermView::Constant(_) => step.terms[p] is Value,
                }
            &&& forall|p: int, q: int|
                #![trigger step.terms[p], step.terms[q]]
                0 <= p < q < terms.len() ==> (step.terms[p] is Variable && step.terms[p]
                    == step.terms[q] <==> same_variable(terms[p].0, terms[q].0))
        }),
    decreases terms.len(),
{
    if terms.len() > 0 {
        let rest = terms.drop_last();
        let before = resolve::resolve_terms(values, Seq::empty(), rest);
        let step = resolve::resolve_terms(values, Seq::empty(), terms);
        assert(before.problems.len() == 0);
        lemma_variables(values, rest);
        reveal_strlit("_");
        assert("_"@ =~= seq!['_']);
        let n = rest.len() as int;
        assert(forall|p: int| 0 <= p < n ==> #[trigger] step.terms[p] == before.terms[p]);
        assert(forall|p: int| 0 <= p < n ==> #[trigger] terms[p] == rest[p]);
        match terms.last().0 {
            TermView::Variable(name) => {
                lemma_find(before.names, name);
                let (names, i) = resolve::with_variable(before.names, name)->Ok_0;
                assert(step.names == names);
                assert(step.terms[n] == ResolvedTerm::Variable(VariableId(i as u32)));
                assert(names[i] == name);
                assert forall|p: int| 0 <= p < n implies (#[trigger] step.terms[p] is Variable
                    && step.terms[p] == step.terms[n] <==> same_variable(
                    terms[p].0,
                    terms[n].0,
                )) by {
                    assert(step.terms[p] == before.terms[p]);
                    if before.terms[p] is Variable {
                        let v = before.terms[p]->Variable_0.0 as int;
                        assert(names[v] == before.names[v]);
                        if v != i && names[v] == names[i] {
                            if v < i {
                                assert(names[v] == seq!['_']);
                            } else {
                                assert(names[i] == seq!['_']);
                            }
                        }
                    }
                }
            },
            TermView::Constant(_) => {},
        }
    }
}

/// Resolving keeps the variables of a rule apart and together as they are written: at two places of
/// the rule, in its head or in its body, there is one variable exactly if the same name, other than
/// the wildcard, stands at both.
pub proof fn law_variables_stay_apart(catalog: CatalogView, rule: RuleView, p: int, q: int)
    requires
        resolve_laws::catalog_fits(catalog),
        resolve::resolve_rule_view(catalog, rule).rule is Some,
        0 <= p < q < rule_terms(rule).len(),
    ensures
        ({
            let found = resolved_rule_terms(resolve::resolve_rule_view(catalog, rule).rule->0);
            let source = rule_terms(rule);
            &&& found.len() == source.len()
            &&& found[p] is Variable && found[p] == found[q] <==> same_variable(
                source[p].0,
                source[q].0,
            )
        }),
{
    let head = resolve::resolve_atom_view(catalog, Seq::empty(), rule.head);
    let body = resolve::resolve_body(head.catalog, head.names, rule.body);
    assert(head.problems.len() == 0 && body.problems.len() == 0);
    lemma_atom_agrees(catalog, Seq::empty(), rule.head);
    lemma_body_agrees(head.catalog, head.names, rule.body);
    lemma_terms_join(catalog.values, Seq::empty(), rule.head.terms, body_terms(rule.body));
    lemma_variables(catalog.values, rule_terms(rule));
}

} // verus!
