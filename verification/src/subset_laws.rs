//! Which programs the binary operators can evaluate, and what they make of their rules.
use vstd::prelude::*;

use crate::ast::{
    ResolvedAtomView, ResolvedLiteralView, ResolvedProgramView, ResolvedRuleView, ResolvedTerm, Span,
};
use crate::catalog::PredicateId;
use crate::database;
use crate::database::ExecutionBackend;
use crate::general;
use crate::relational::{JoinInput, RelationId};
use crate::schedule;
use crate::schedule::{ProgramSchedule, ScheduledScc, ScheduledStratum};
use crate::subset;
use crate::subset::{BinaryProgramPlan, ComponentShape, Refusal};

verus! {

/// Whether every atom of a rule has two terms.
pub open spec fn is_narrow(rule: ResolvedRuleView) -> bool {
    &&& rule.head.terms.len() == 2
    &&& forall|j: int| 0 <= j < rule.body.len() ==> (#[trigger] rule.body[j]).atom.terms.len() == 2
}

/// Whether a term is a variable of an atom.
pub open spec fn is_variable_of(term: ResolvedTerm, atom: ResolvedAtomView) -> bool {
    term is Variable && (term == atom.terms[0] || term == atom.terms[1])
}

/// Whether a rule fills a component from one other relation.
pub open spec fn is_seed(rule: ResolvedRuleView) -> bool {
    &&& rule.body.len() == 1
    &&& !rule.body[0].negated
    &&& is_variable_of(rule.head.terms[0], rule.body[0].atom)
    &&& is_variable_of(rule.head.terms[1], rule.body[0].atom)
}

/// Whether two atoms have variables only, and exactly one of them in common, once on each side.
pub open spec fn join_once(a: ResolvedAtomView, b: ResolvedAtomView) -> bool {
    &&& a.terms[0] is Variable && a.terms[1] is Variable && b.terms[0] is Variable
        && b.terms[1] is Variable
    &&& meets_once(a, b)
}

/// Whether two atoms have the same term at two places, and nowhere else.
pub open spec fn meets_only_at(a: ResolvedAtomView, b: ResolvedAtomView, x: int, y: int) -> bool {
    &&& 0 <= x < 2 && 0 <= y < 2
    &&& a.terms[x] == b.terms[y]
    &&& forall|p: int, q: int|
        0 <= p < 2 && 0 <= q < 2 && #[trigger] a.terms[p] == #[trigger] b.terms[q] ==> p == x && q
            == y
}

/// Whether two atoms have the same term at exactly two places.
pub open spec fn meets_once(a: ResolvedAtomView, b: ResolvedAtomView) -> bool {
    exists|x: int, y: int| #[trigger] meets_only_at(a, b, x, y)
}

/// Whether a rule extends a component by joining one of its relations with another one.
pub open spec fn is_step(rule: ResolvedRuleView) -> bool {
    &&& rule.body.len() == 2
    &&& !rule.body[0].negated && !rule.body[1].negated
    &&& join_once(rule.body[0].atom, rule.body[1].atom)
    &&& is_variable_of(rule.head.terms[0], rule.body[0].atom) || is_variable_of(
        rule.head.terms[0],
        rule.body[1].atom,
    )
    &&& is_variable_of(rule.head.terms[1], rule.body[0].atom) || is_variable_of(
        rule.head.terms[1],
        rule.body[1].atom,
    )
}

/// Whether a rule for a component is one that the binary operators know.
pub open spec fn is_taken(rule: ResolvedRuleView, group: Seq<PredicateId>) -> bool {
    let count = subset::recursive_count(rule.body, group);
    (count == 0 && is_seed(rule)) || (count == 1 && is_step(rule))
}

proof fn lemma_seed(rule: ResolvedRuleView)
    requires
        is_narrow(rule),
    ensures
        subset::seed_of(rule) is Ok <==> is_seed(rule),
{
}

proof fn lemma_shared(a: ResolvedAtomView, b: ResolvedAtomView)
    ensures
        subset::shared_columns(a, b).len() == 1 <==> meets_once(a, b),
{
    let p = a.terms[0] == b.terms[0];
    let q = a.terms[0] == b.terms[1];
    let r = a.terms[1] == b.terms[0];
    let s = a.terms[1] == b.terms[1];
    if p && !q && !r && !s {
        assert(meets_only_at(a, b, 0, 0));
    }
    if !p && q && !r && !s {
        assert(meets_only_at(a, b, 0, 1));
    }
    if !p && !q && r && !s {
        assert(meets_only_at(a, b, 1, 0));
    }
    if !p && !q && !r && s {
        assert(meets_only_at(a, b, 1, 1));
    }
    if meets_once(a, b) {
        let (x, y) = choose|x: int, y: int| #[trigger] meets_only_at(a, b, x, y);
        assert(p ==> x == 0 && y == 0);
        assert(q ==> x == 0 && y == 1);
        assert(r ==> x == 1 && y == 0);
        assert(s ==> x == 1 && y == 1);
    }
}

proof fn lemma_meets_swapped(a: ResolvedAtomView, b: ResolvedAtomView)
    requires
        meets_once(a, b),
    ensures
        meets_once(b, a),
{
    let (x, y) = choose|x: int, y: int| #[trigger] meets_only_at(a, b, x, y);
    assert(meets_only_at(b, a, y, x));
}

proof fn lemma_step(rule: ResolvedRuleView, group: Seq<PredicateId>)
    requires
        is_narrow(rule),
    ensures
        subset::shape_of(rule, group) is Ok <==> is_step(rule),
{
    if rule.body.len() == 2 {
        let a = rule.body[0].atom;
        let b = rule.body[1].atom;
        lemma_shared(a, b);
        lemma_shared(b, a);
        if meets_once(a, b) {
            lemma_meets_swapped(a, b);
        }
        if meets_once(b, a) {
            lemma_meets_swapped(b, a);
        }
    }
}

proof fn lemma_component(rules: Seq<ResolvedRuleView>, group: Seq<PredicateId>)
    requires
        forall|i: int| 0 <= i < rules.len() ==> is_narrow(#[trigger] rules[i]),
    ensures
        subset::component_shape(rules, group) is Ok <==> forall|i: int|
            0 <= i < rules.len() && (#[trigger] rules[i]).body.len() > 0 && group.contains(
                rules[i].head.predicate,
            ) ==> is_taken(rules[i], group),
    decreases rules.len(),
{
    if rules.len() > 0 {
        let rest = rules.drop_last();
        assert forall|i: int| 0 <= i < rest.len() implies is_narrow(#[trigger] rest[i]) by {
            assert(is_narrow(rules[i]));
        }
        lemma_component(rest, group);
        let last = rules.last();
        assert(is_narrow(rules[rules.len() - 1]));
        lemma_seed(last);
        lemma_step(last, group);
        let taken = forall|i: int|
            0 <= i < rest.len() && (#[trigger] rest[i]).body.len() > 0 && group.contains(
                rest[i].head.predicate,
            ) ==> is_taken(rest[i], group);
        let all = forall|i: int|
            0 <= i < rules.len() && (#[trigger] rules[i]).body.len() > 0 && group.contains(
                rules[i].head.predicate,
            ) ==> is_taken(rules[i], group);
        if all {
            assert forall|i: int|
                0 <= i < rest.len() && (#[trigger] rest[i]).body.len() > 0 && group.contains(
                    rest[i].head.predicate,
                ) implies is_taken(rest[i], group) by {
                assert(rest[i] == rules[i]);
            }
            assert(rules[rules.len() - 1] == last);
        }
        if taken && (general::derives_into(last, group) ==> is_taken(last, group)) {
            assert forall|i: int|
                0 <= i < rules.len() && (#[trigger] rules[i]).body.len() > 0 && group.contains(
                    rules[i].head.predicate,
                ) implies is_taken(rules[i], group) by {
                if i < rest.len() {
                    assert(rest[i] == rules[i]);
                }
            }
        }
    }
}

/// Whether a predicate is one of some components.
pub open spec fn is_among(groups: Seq<Seq<PredicateId>>, predicate: PredicateId) -> bool {
    exists|g: int| 0 <= g < groups.len() && (#[trigger] groups[g]).contains(predicate)
}

/// Whether a rule with one literal takes whole rows of a relation that no rule derives.
pub open spec fn is_whole(rule: ResolvedRuleView, groups: Seq<Seq<PredicateId>>) -> bool {
    let source = rule.body[0].atom;
    &&& !is_among(groups, source.predicate)
    &&& source.terms[0] is Variable && source.terms[1] is Variable
    &&& source.terms[0] != source.terms[1]
}

/// Whether the binary operators can evaluate a rule.
pub open spec fn is_binary_rule(
    rule: ResolvedRuleView,
    groups: Seq<Seq<PredicateId>>,
) -> bool {
    &&& is_narrow(rule)
    &&& rule.body.len() == 0 ==> rule.head.terms[0] is Value && rule.head.terms[1] is Value
    &&& rule.body.len() > 0 ==> is_among(groups, rule.head.predicate)
    &&& rule.body.len() == 1 ==> is_whole(rule, groups)
    &&& forall|g: int|
        0 <= g < groups.len() && rule.body.len() > 0 && (#[trigger] groups[g]).contains(
            rule.head.predicate,
        ) ==> is_taken(rule, groups[g])
}

/// The first atom with another number of terms than two.
proof fn lemma_wide(rules: Seq<ResolvedRuleView>, from: int)
    requires
        0 <= from <= rules.len(),
    ensures
        subset::first_wide(rules, from) is None <==> forall|i: int|
            from <= i < rules.len() ==> is_narrow(#[trigger] rules[i]),
    decreases rules.len() - from,
{
    if from < rules.len() {
        lemma_wide(rules, from + 1);
        lemma_wide_literal(rules[from].body, 0);
    }
}

proof fn lemma_wide_literal(body: Seq<ResolvedLiteralView>, from: int)
    requires
        0 <= from <= body.len(),
    ensures
        subset::first_wide_literal(body, from) is None <==> forall|j: int|
            from <= j < body.len() ==> (#[trigger] body[j]).atom.terms.len() == 2,
    decreases body.len() - from,
{
    if from < body.len() {
        lemma_wide_literal(body, from + 1);
    }
}

proof fn lemma_outside(rules: Seq<ResolvedRuleView>, groups: Seq<Seq<PredicateId>>, from: int)
    requires
        0 <= from <= rules.len(),
    ensures
        subset::first_outside(rules, groups, from) is None <==> forall|i: int|
            from <= i < rules.len() && (#[trigger] rules[i]).body.len() > 0 ==> is_among(
                groups,
                rules[i].head.predicate,
            ),
    decreases rules.len() - from,
{
    if from < rules.len() {
        lemma_outside(rules, groups, from + 1);
        assert(is_among(groups, rules[from].head.predicate) == subset::in_a_group(
            groups,
            rules[from].head.predicate,
        ));
    }
}

proof fn lemma_refused(rules: Seq<ResolvedRuleView>, groups: Seq<Seq<PredicateId>>, from: int)
    requires
        0 <= from <= groups.len(),
        forall|i: int| 0 <= i < rules.len() ==> is_narrow(#[trigger] rules[i]),
    ensures
        subset::first_refused(rules, groups, from) is None <==> forall|g: int, i: int|
            #![trigger groups[g], rules[i]]
            from <= g < groups.len() && 0 <= i < rules.len() && rules[i].body.len() > 0
                && groups[g].contains(rules[i].head.predicate) ==> is_taken(rules[i], groups[g]),
    decreases groups.len() - from,
{
    if from < groups.len() {
        lemma_refused(rules, groups, from + 1);
        lemma_component(rules, groups[from]);
        let own = forall|i: int|
            0 <= i < rules.len() && (#[trigger] rules[i]).body.len() > 0 && groups[from].contains(
                rules[i].head.predicate,
            ) ==> is_taken(rules[i], groups[from]);
        let all = forall|g: int, i: int|
            #![trigger groups[g], rules[i]]
            from <= g < groups.len() && 0 <= i < rules.len() && rules[i].body.len() > 0
                && groups[g].contains(rules[i].head.predicate) ==> is_taken(rules[i], groups[g]);
        let later = forall|g: int, i: int|
            #![trigger groups[g], rules[i]]
            from + 1 <= g < groups.len() && 0 <= i < rules.len() && rules[i].body.len() > 0
                && groups[g].contains(rules[i].head.predicate) ==> is_taken(rules[i], groups[g]);
        assert(all ==> own && later) by {
            if all {
                assert forall|i: int|
                    0 <= i < rules.len() && (#[trigger] rules[i]).body.len() > 0
                        && groups[from].contains(rules[i].head.predicate) implies is_taken(
                    rules[i],
                    groups[from],
                ) by {
                    let group = groups[from];
                }
            }
        }
    }
}

proof fn lemma_selective(rules: Seq<ResolvedRuleView>, groups: Seq<Seq<PredicateId>>, from: int)
    requires
        0 <= from <= rules.len(),
    ensures
        subset::first_selective(rules, groups, from) is None <==> forall|i: int|
            from <= i < rules.len() && (#[trigger] rules[i]).body.len() == 1 ==> is_whole(
                rules[i],
                groups,
            ),
    decreases rules.len() - from,
{
    if from < rules.len() {
        lemma_selective(rules, groups, from + 1);
        if rules[from].body.len() == 1 {
            let predicate = rules[from].body[0].atom.predicate;
            assert(is_among(groups, predicate) == subset::in_a_group(groups, predicate));
        }
    }
}

proof fn lemma_open(rules: Seq<ResolvedRuleView>, from: int)
    requires
        0 <= from <= rules.len(),
        forall|i: int| 0 <= i < rules.len() ==> is_narrow(#[trigger] rules[i]),
    ensures
        subset::first_open(rules, from) is None <==> forall|i: int|
            from <= i < rules.len() && (#[trigger] rules[i]).body.len() == 0
                ==> rules[i].head.terms[0] is Value && rules[i].head.terms[1] is Value,
    decreases rules.len() - from,
{
    if from < rules.len() {
        lemma_open(rules, from + 1);
        assert(is_narrow(rules[from]));
        assert(general::is_ground(rules[from].head.terms) <==> rules[from].head.terms[0] is Value
            && rules[from].head.terms[1] is Value);
    }
}

/// The binary operators take a program exactly if they know every rule of it.
pub proof fn law_binary_programs(program: ResolvedProgramView, groups: Seq<Seq<PredicateId>>)
    ensures
        subset::refusal_of(program, groups) is None <==> forall|i: int|
            0 <= i < program.rules.len() ==> is_binary_rule(#[trigger] program.rules[i], groups),
{
    let rules = program.rules;
    lemma_wide(rules, 0);
    if forall|i: int| 0 <= i < rules.len() ==> is_narrow(#[trigger] rules[i]) {
        lemma_outside(rules, groups, 0);
        lemma_refused(rules, groups, 0);
        lemma_selective(rules, groups, 0);
        lemma_open(rules, 0);
        if subset::refusal_of(program, groups) is None {
            assert forall|i: int| 0 <= i < rules.len() implies is_binary_rule(
                #[trigger] rules[i],
                groups,
            ) by {
                assert(is_narrow(rules[i]));
            }
        }
        if forall|i: int| 0 <= i < rules.len() ==> is_binary_rule(#[trigger] rules[i], groups) {
            assert forall|i: int|
                0 <= i < rules.len() && (#[trigger] rules[i]).body.len() > 0 implies is_among(
                groups,
                rules[i].head.predicate,
            ) by {
                assert(is_binary_rule(rules[i], groups));
            }
            assert forall|g: int, i: int|
                #![trigger groups[g], rules[i]]
                0 <= g < groups.len() && 0 <= i < rules.len() && rules[i].body.len() > 0
                    && groups[g].contains(rules[i].head.predicate) implies is_taken(
                rules[i],
                groups[g],
            ) by {
                assert(is_binary_rule(rules[i], groups));
            }
            assert forall|i: int|
                0 <= i < rules.len() && (#[trigger] rules[i]).body.len() == 1 implies is_whole(
                rules[i],
                groups,
            ) by {
                assert(is_binary_rule(rules[i], groups));
            }
            assert forall|i: int|
                0 <= i < rules.len() && (
                #[trigger] rules[i]).body.len() == 0 implies rules[i].head.terms[0] is Value
                && rules[i].head.terms[1] is Value by {
                assert(is_binary_rule(rules[i], groups));
            }
        }
    } else {
        let i = choose|i: int| 0 <= i < rules.len() && !is_narrow(#[trigger] rules[i]);
        assert(!is_binary_rule(rules[i], groups));
    }
}

/// A literal is counted for a component if its predicate is one of it.
pub proof fn law_counted_literals(
    body: Seq<ResolvedLiteralView>,
    literal: ResolvedLiteralView,
    group: Seq<PredicateId>,
)
    ensures
        subset::recursive_count(Seq::empty(), group) == 0,
        subset::recursive_count(body.push(literal), group) == subset::recursive_count(body, group)
            + if group.contains(literal.atom.predicate) {
            1nat
        } else {
            0nat
        },
{
    assert(body.push(literal).drop_last() =~= body);
}

/// A seed takes each column of its target from a column of its source that has the same variable.
pub proof fn law_seeds(rule: ResolvedRuleView)
    requires
        is_narrow(rule),
    ensures
        subset::seed_of(rule) matches Ok(seed) ==> {
            &&& seed.target == RelationId(rule.head.predicate.0)
            &&& seed.source == RelationId(rule.body[0].atom.predicate.0)
            &&& seed.columns.len() == 2
            &&& forall|k: int|
                0 <= k < 2 ==> (#[trigger] seed.columns[k]) < 2 && rule.head.terms[k]
                    == rule.body[0].atom.terms[seed.columns[k] as int]
        },
{
}

/// A step joins the relation of the component, on the left, with the other one, on the columns with
/// their common variable, and takes each column of its target from a column with the same variable.
pub proof fn law_steps(rule: ResolvedRuleView, group: Seq<PredicateId>)
    requires
        is_narrow(rule),
        subset::recursive_count(rule.body, group) == 1,
    ensures
        subset::shape_of(rule, group) matches Ok(shape) ==> {
            let first = group.contains(rule.body[0].atom.predicate);
            let left = if first {
                rule.body[0].atom
            } else {
                rule.body[1].atom
            };
            let right = if first {
                rule.body[1].atom
            } else {
                rule.body[0].atom
            };
            &&& group.contains(left.predicate) && !group.contains(right.predicate)
            &&& shape.target == RelationId(rule.head.predicate.0)
            &&& shape.delta_input == RelationId(left.predicate.0)
            &&& shape.right_input == RelationId(right.predicate.0)
            &&& shape.left_key < 2 && shape.right_key < 2
            &&& left.terms[shape.left_key as int] == right.terms[shape.right_key as int]
            &&& shape.output.len() == 2
            &&& forall|k: int|
                0 <= k < 2 ==> (#[trigger] shape.output[k]).column < 2 && rule.head.terms[k]
                    == if shape.output[k].input == JoinInput::Left {
                    left.terms[shape.output[k].column as int]
                } else {
                    right.terms[shape.output[k].column as int]
                }
        },
{
    if rule.body.len() == 2 {
        let one = rule.body.drop_last();
        assert(one.drop_last() =~= Seq::<ResolvedLiteralView>::empty());
        assert(one.last() == rule.body[0]);
        assert(rule.body.last() == rule.body[1]);
        reveal_with_fuel(subset::recursive_count, 3);
        let place = if group.contains(rule.body[0].atom.predicate) {
            0int
        } else {
            1
        };
        let left = rule.body[place].atom;
        let right = rule.body[1 - place].atom;
        if let Ok(key) = subset::join_key(left, right) {
            let found = subset::shared_columns(left, right);
            assert(found[0] == key);
            assert(found.len() == 1);
        }
    }
}

/// The seeds and steps of a component come from the rules for its predicates, in order.
pub proof fn law_shapes_in_order(
    rules: Seq<ResolvedRuleView>,
    rule: ResolvedRuleView,
    group: Seq<PredicateId>,
)
    ensures
        subset::component_shape(Seq::empty(), group) == Ok::<ComponentShape, Refusal>(
            ComponentShape { seeds: Seq::empty(), rules: Seq::empty() },
        ),
        subset::component_shape(rules, group) matches Ok(before) ==> {
            let count = subset::recursive_count(rule.body, group);
            let after = subset::component_shape(rules.push(rule), group);
            if rule.body.len() == 0 || !group.contains(rule.head.predicate) {
                after == Ok::<ComponentShape, Refusal>(before)
            } else if count == 0 {
                match subset::seed_of(rule) {
                    Ok(seed) => after == Ok::<ComponentShape, Refusal>(
                        ComponentShape { seeds: before.seeds.push(seed), rules: before.rules },
                    ),
                    Err(refusal) => after == Err::<ComponentShape, Refusal>(refusal),
                }
            } else if count == 1 {
                match subset::shape_of(rule, group) {
                    Ok(shape) => after == Ok::<ComponentShape, Refusal>(
                        ComponentShape { seeds: before.seeds, rules: before.rules.push(shape) },
                    ),
                    Err(refusal) => after == Err::<ComponentShape, Refusal>(refusal),
                }
            } else {
                after == Err::<ComponentShape, Refusal>(
                    Refusal {
                        message: "the initial executable subset permits one recursive body atom"@,
                        span: rule.span,
                    },
                )
            }
        },
{
    assert(rules.push(rule).drop_last() =~= rules);
}

/// Why a seed is refused.
pub proof fn law_refused_seeds(rule: ResolvedRuleView)
    requires
        is_narrow(rule),
    ensures
        ({
            let single = rule.body.len() == 1 && !rule.body[0].negated;
            let a = rule.head.terms[0];
            let b = rule.head.terms[1];
            let known = |term: ResolvedTerm| is_variable_of(term, rule.body[0].atom);
            let head = |message: Seq<char>| Refusal { message, span: rule.head.span };
            subset::seed_of(rule) matches Err(refusal) ==> refusal == if !single {
                Refusal {
                    message: "a seed clause must contain one positive atom"@,
                    span: rule.span,
                }
            } else if a is Value || (known(a) && b is Value) {
                head("seed clause heads must project variables"@)
            } else {
                head("head variable is absent from the seed atom"@)
            }
        }),
{
}

proof fn lemma_refused_key(left: ResolvedAtomView, right: ResolvedAtomView)
    ensures
        ({
            let constants = "recursive joins do not yet support constants"@;
            subset::join_key(left, right) matches Err(refusal) ==> if left.terms[0] is Value {
                refusal == (Refusal { message: constants, span: left.span })
            } else if right.terms[0] is Value || right.terms[1] is Value {
                refusal == (Refusal { message: constants, span: right.span })
            } else if left.terms[1] is Value {
                refusal == (Refusal { message: constants, span: left.span })
            } else {
                &&& !meets_once(left, right)
                &&& refusal.message == "recursive atoms must share exactly one join variable"@
                &&& crate::grammar_laws::covers(refusal.span, left.span, right.span)
            }
        }),
{
    lemma_shared(left, right);
}

proof fn lemma_head_column(
    head: ResolvedAtomView,
    left: ResolvedAtomView,
    right: ResolvedAtomView,
    k: int,
)
    ensures
        subset::head_column(head, left, right, k) is Ok <==> is_variable_of(head.terms[k], left)
            || is_variable_of(head.terms[k], right),
        subset::head_column(head, left, right, k) matches Err(refusal) ==> refusal.span == head.span
            && refusal.message == if head.terms[k] is Value {
            "recursive rule heads must project variables"@
        } else {
            "head variable is absent from the recursive body"@
        },
{
}

/// Why a step is refused: for its literals, for constants or for its common variables in a join of
/// the relation of the component with the other one, or for its head.
pub proof fn law_refused_steps(rule: ResolvedRuleView, group: Seq<PredicateId>)
    requires
        is_narrow(rule),
        subset::shape_of(rule, group) is Err,
    ensures
        ({
            let refusal = subset::shape_of(rule, group)->Err_0;
            let double = rule.body.len() == 2 && !rule.body[0].negated && !rule.body[1].negated;
            let place = if group.contains(rule.body[0].atom.predicate) {
                0int
            } else {
                1int
            };
            let left = rule.body[place].atom;
            let right = rule.body[1 - place].atom;
            let constants = "recursive joins do not yet support constants"@;
            let a = rule.head.terms[0];
            let b = rule.head.terms[1];
            if !double {
                refusal == (Refusal {
                    message: "a recursive clause must contain two positive atoms"@,
                    span: rule.span,
                })
            } else if left.terms[0] is Value {
                refusal == (Refusal { message: constants, span: left.span })
            } else if right.terms[0] is Value || right.terms[1] is Value {
                refusal == (Refusal { message: constants, span: right.span })
            } else if left.terms[1] is Value {
                refusal == (Refusal { message: constants, span: left.span })
            } else if !meets_once(left, right) {
                &&& refusal.message == "recursive atoms must share exactly one join variable"@
                &&& crate::grammar_laws::covers(refusal.span, left.span, right.span)
            } else if a is Value || (b is Value && (is_variable_of(a, left) || is_variable_of(
                a,
                right,
            ))) {
                refusal == (Refusal {
                    message: "recursive rule heads must project variables"@,
                    span: rule.head.span,
                })
            } else {
                refusal == (Refusal {
                    message: "head variable is absent from the recursive body"@,
                    span: rule.head.span,
                })
            }
        }),
{
    if rule.body.len() == 2 {
        let place = if group.contains(rule.body[0].atom.predicate) {
            0int
        } else {
            1int
        };
        let left = rule.body[place].atom;
        let right = rule.body[1 - place].atom;
        lemma_refused_key(left, right);
        lemma_shared(left, right);
        if !rule.body[0].negated && !rule.body[1].negated {
            match subset::join_key(left, right) {
                Err(refusal) => {
                    assert(subset::shape_of(rule, group)->Err_0 == refusal);
                },
                Ok(_) => {
                    assert(meets_once(left, right));
                    let found = subset::head_columns(rule.head, left, right);
                    assert(found is Err);
                    assert(subset::shape_of(rule, group)->Err_0 == found->Err_0);
                    lemma_head_column(rule.head, left, right, 0);
                    lemma_head_column(rule.head, left, right, 1);
                },
            }
        }
    }
}

/// A program with an atom that is not binary is refused for the first one.
pub proof fn law_refused_for_width(
    program: ResolvedProgramView,
    groups: Seq<Seq<PredicateId>>,
) -> (i: int)
    requires
        exists|k: int| 0 <= k < program.rules.len() && !is_narrow(#[trigger] program.rules[k]),
    ensures
        0 <= i < program.rules.len(),
        subset::refusal_of(program, groups) matches Some(refusal) && refusal.message
            == "the initial executable subset requires binary predicates"@ && first_wide_at(
            program.rules,
            i,
            refusal.span,
        ),
{
    lemma_wide(program.rules, 0);
    lemma_wide_place(program.rules, 0)
}

/// A binary program is refused for its first rule that derives a predicate outside the recursive
/// components.
pub proof fn law_refused_for_predicates(
    program: ResolvedProgramView,
    groups: Seq<Seq<PredicateId>>,
) -> (i: int)
    requires
        forall|k: int| 0 <= k < program.rules.len() ==> is_narrow(#[trigger] program.rules[k]),
        exists|k: int|
            0 <= k < program.rules.len() && (#[trigger] program.rules[k]).body.len() > 0
                && !is_among(groups, program.rules[k].head.predicate),
    ensures
        0 <= i < program.rules.len(),
        program.rules[i].body.len() > 0,
        !is_among(groups, program.rules[i].head.predicate),
        forall|k: int|
            0 <= k < i && (#[trigger] program.rules[k]).body.len() > 0 ==> is_among(
                groups,
                program.rules[k].head.predicate,
            ),
        subset::refusal_of(program, groups) == Some(
            Refusal {
                message: "the initial executable subset only derives recursive predicates"@,
                span: program.rules[i].span,
            },
        ),
{
    lemma_wide(program.rules, 0);
    lemma_outside(program.rules, groups, 0);
    lemma_outside_place(program.rules, groups, 0)
}

/// Whether a rule is the first with an atom that is not binary, and a span is that of its first such
/// atom, the head counted first.
pub open spec fn first_wide_at(rules: Seq<ResolvedRuleView>, i: int, span: Span) -> bool {
    &&& forall|k: int| 0 <= k < i ==> is_narrow(#[trigger] rules[k])
    &&& if rules[i].head.terms.len() != 2 {
        span == rules[i].head.span
    } else {
        exists|j: int|
            0 <= j < rules[i].body.len() && (#[trigger] rules[i].body[j]).atom.terms.len() != 2
                && span == rules[i].body[j].atom.span && forall|l: int|
                0 <= l < j ==> (#[trigger] rules[i].body[l]).atom.terms.len() == 2
    }
}

proof fn lemma_wide_place(rules: Seq<ResolvedRuleView>, from: int) -> (i: int)
    requires
        0 <= from <= rules.len(),
        forall|k: int| 0 <= k < from ==> is_narrow(#[trigger] rules[k]),
        subset::first_wide(rules, from) is Some,
    ensures
        0 <= i < rules.len(),
        first_wide_at(rules, i, subset::first_wide(rules, from)->0),
    decreases rules.len() - from,
{
    let span = subset::first_wide(rules, from)->0;
    let body = rules[from].body;
    lemma_wide_literal(body, 0);
    if !subset::is_binary(rules[from].head) {
        from
    } else if subset::first_wide_literal(body, 0) is Some {
        let j = lemma_wide_literal_place(body, 0);
        assert(rules[from].body[j].atom.terms.len() != 2);
        assert(first_wide_at(rules, from, span));
        from
    } else {
        assert(is_narrow(rules[from]));
        lemma_wide_place(rules, from + 1)
    }
}

proof fn lemma_wide_literal_place(body: Seq<ResolvedLiteralView>, from: int) -> (j: int)
    requires
        0 <= from <= body.len(),
        forall|l: int| 0 <= l < from ==> (#[trigger] body[l]).atom.terms.len() == 2,
        subset::first_wide_literal(body, from) is Some,
    ensures
        0 <= j < body.len(),
        body[j].atom.terms.len() != 2,
        body[j].atom.span == subset::first_wide_literal(body, from)->0,
        forall|l: int| 0 <= l < j ==> (#[trigger] body[l]).atom.terms.len() == 2,
    decreases body.len() - from,
{
    if subset::is_binary(body[from].atom) {
        lemma_wide_literal_place(body, from + 1)
    } else {
        from
    }
}

proof fn lemma_outside_place(
    rules: Seq<ResolvedRuleView>,
    groups: Seq<Seq<PredicateId>>,
    from: int,
) -> (i: int)
    requires
        0 <= from <= rules.len(),
        subset::first_outside(rules, groups, from) is Some,
    ensures
        from <= i < rules.len(),
        rules[i].body.len() > 0,
        !is_among(groups, rules[i].head.predicate),
        rules[i].span == subset::first_outside(rules, groups, from)->0,
        forall|k: int|
            from <= k < i && (#[trigger] rules[k]).body.len() > 0 ==> is_among(
                groups,
                rules[k].head.predicate,
            ),
    decreases rules.len() - from,
{
    let predicate = rules[from].head.predicate;
    assert(is_among(groups, predicate) == subset::in_a_group(groups, predicate));
    if rules[from].body.len() > 0 && !is_among(groups, predicate) {
        from
    } else {
        lemma_outside_place(rules, groups, from + 1)
    }
}

/// The recursive components are taken in order of the strata, and in order within each.
pub proof fn law_recursive_groups(
    strata: Seq<ScheduledStratum>,
    stratum: ScheduledStratum,
    sccs: Seq<ScheduledScc>,
    scc: ScheduledScc,
)
    ensures
        subset::recursive_groups(Seq::empty()).len() == 0,
        subset::recursive_groups(strata.push(stratum)) == subset::recursive_groups(strata)
            + subset::recursive_sccs(stratum.sccs@),
        subset::recursive_sccs(Seq::empty()).len() == 0,
        scc.recursive ==> subset::recursive_sccs(sccs.push(scc)) == subset::recursive_sccs(
            sccs,
        ).push(scc.predicates@),
        !scc.recursive ==> subset::recursive_sccs(sccs.push(scc)) == subset::recursive_sccs(sccs),
{
    assert(strata.push(stratum).drop_last() =~= strata);
    assert(sccs.push(scc).drop_last() =~= sccs);
}

/// The binary operators are preferred for a program without negation on a cycle all of whose rules
/// they know, and the general ones for every other program.
pub proof fn law_preferred_backend(program: ResolvedProgramView, backend: ExecutionBackend)
    requires
        database::is_preferred(program, backend),
    ensures
        database::has_negative_cycle(program) ==> backend == ExecutionBackend::GeneralCpu,
        !database::has_negative_cycle(program) ==> exists|plan: ProgramSchedule| #[trigger]
            schedule::schedules(program, plan) && (backend == ExecutionBackend::BinaryHybrid
                <==> forall|i: int|
                0 <= i < program.rules.len() ==> is_binary_rule(
                    #[trigger] program.rules[i],
                    subset::recursive_groups(plan.strata@),
                )),
{
    if !database::has_negative_cycle(program) {
        let plan = choose|plan: ProgramSchedule| #[trigger]
            schedule::schedules(program, plan) && (backend == ExecutionBackend::BinaryHybrid
                <==> subset::refusal_of(program, subset::recursive_groups(plan.strata@)) is None);
        law_binary_programs(program, subset::recursive_groups(plan.strata@));
    }
}

/// A plan for the binary operators has the facts and outputs of its program in order, and for each
/// recursive component its relations, its seeds and its steps in order. A step removes repetitions,
/// subtracts and unites on both columns, the first one first.
pub proof fn law_lowered_programs(
    program: ResolvedProgramView,
    groups: Seq<Seq<PredicateId>>,
    plan: BinaryProgramPlan,
    g: int,
    k: int,
)
    requires
        subset::lowers_binary(program, groups, plan),
    ensures
        ({
            let facts = general::fact_tuples(program.rules);
            &&& plan.facts@.len() == facts.len()
            &&& forall|i: int|
                0 <= i < facts.len() ==> (#[trigger] plan.facts@[i]).0 == facts[i].0
                    && plan.facts@[i].1@ == facts[i].1
            &&& plan.outputs@.len() == program.outputs.len()
            &&& forall|i: int|
                0 <= i < program.outputs.len() ==> (#[trigger] plan.outputs@[i]).0
                    == program.outputs[i].0
            &&& plan.recursive_sccs@.len() == groups.len()
        }),
        0 <= g < groups.len() ==> {
            let scc = plan.recursive_sccs@[g];
            let shape = subset::component_shape(program.rules, groups[g])->Ok_0;
            &&& scc.plan.relations@.len() == groups[g].len()
            &&& forall|i: int|
                0 <= i < groups[g].len() ==> (#[trigger] scc.plan.relations@[i]).0 == groups[g][i].0
            &&& scc.seeds@.len() == shape.seeds.len()
            &&& 0 <= k < shape.seeds.len() ==> {
                &&& scc.seeds@[k].target == shape.seeds[k].target
                &&& scc.seeds@[k].source == shape.seeds[k].source
                &&& scc.seeds@[k].columns@ == shape.seeds[k].columns
            }
            &&& scc.plan.rules@.len() == shape.rules.len()
            &&& 0 <= k < shape.rules.len() ==> {
                let rule = scc.plan.rules@[k];
                &&& rule.target == shape.rules[k].target
                &&& rule.delta_input == shape.rules[k].delta_input
                &&& rule.right_input == shape.rules[k].right_input
                &&& rule.join.left_key == shape.rules[k].left_key
                &&& rule.join.right_key == shape.rules[k].right_key
                &&& rule.join.output@ == shape.rules[k].output
                &&& rule.distinct.columns@ == seq![0u32, 1u32]
                &&& rule.anti_join.left@ == seq![0u32, 1u32]
                &&& rule.anti_join.right@ == seq![0u32, 1u32]
                &&& rule.union.left@ == seq![0u32, 1u32]
                &&& rule.union.right@ == seq![0u32, 1u32]
            }
        },
{
    if 0 <= g < groups.len() {
        let scc = plan.recursive_sccs@[g];
        let shape = subset::component_shape(program.rules, groups[g])->Ok_0;
        assert(subset::component_has(plan.recursive_sccs@[g], groups[g], shape));
        if 0 <= k < shape.seeds.len() {
            assert(crate::ast::views(scc.seeds@)[k] == scc.seeds@[k]@);
        }
        if 0 <= k < shape.rules.len() {
            assert(subset::has_shape(scc.plan.rules@[k], shape.rules[k]));
        }
    }
}

} // verus!
