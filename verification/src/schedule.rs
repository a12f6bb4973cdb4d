//! Stratification: strongly connected components of the predicate dependencies, their strata,
//! and the order in which they are evaluated.
use vstd::prelude::*;
use vstd::string::*;

use crate::ast::{ResolvedLiteralView, ResolvedProgram, ResolvedProgramView, ResolvedRuleView};
use crate::catalog::PredicateId;
use crate::graph;
use crate::graph::{Dependency, DependencyKind};
use crate::sorted;
use crate::sorted::insert_ascending;
use crate::text;
use crate::text::decimal_text;

verus! {

/// The dependency that a body literal adds to a rule's head.
pub open spec fn literal_dependency(
    head: PredicateId,
    literal: ResolvedLiteralView,
) -> Dependency {
    Dependency {
        head,
        body: literal.atom.predicate,
        kind: if literal.negated {
            DependencyKind::Negative
        } else {
            DependencyKind::Positive
        },
    }
}

/// The dependencies of one rule, one for each body literal.
pub open spec fn rule_dependencies(rule: ResolvedRuleView) -> Seq<Dependency> {
    Seq::new(
        rule.body.len(),
        |i: int| literal_dependency(rule.head.predicate, rule.body[i]),
    )
}

/// The dependencies of a list of rules, one for each body literal, in order.
pub open spec fn rules_dependencies(rules: Seq<ResolvedRuleView>) -> Seq<Dependency>
    decreases rules.len(),
{
    if rules.len() == 0 {
        Seq::empty()
    } else {
        rules_dependencies(rules.drop_last()) + rule_dependencies(rules.last())
    }
}

/// Each item once, in order of first occurrence.
pub open spec fn first_occurrences(items: Seq<Dependency>) -> Seq<Dependency>
    decreases items.len(),
{
    if items.len() == 0 {
        Seq::empty()
    } else {
        let earlier = first_occurrences(items.drop_last());
        if earlier.contains(items.last()) {
            earlier
        } else {
            earlier.push(items.last())
        }
    }
}

/// The distinct dependencies of a program, in order of first occurrence.
pub open spec fn program_dependencies(program: ResolvedProgramView) -> Seq<Dependency> {
    first_occurrences(rules_dependencies(program.rules))
}

/// Whether a rule mentions a predicate.
pub open spec fn mentions(rule: ResolvedRuleView, predicate: PredicateId) -> bool {
    ||| rule.head.predicate == predicate
    ||| exists|i: int|
        0 <= i < rule.body.len() && (#[trigger] rule.body[i]).atom.predicate == predicate
}

/// Whether a predicate occurs in a rule or among the outputs.
pub open spec fn is_active(program: ResolvedProgramView, predicate: PredicateId) -> bool {
    ||| exists|i: int|
        0 <= i < program.rules.len() && mentions(#[trigger] program.rules[i], predicate)
    ||| program.outputs.contains(predicate)
}

fn contains_dependency(items: &Vec<Dependency>, item: Dependency) -> (found: bool)
    ensures
        found == items@.contains(item),
{
    let mut i: usize = 0;
    while i < items.len()
        invariant
            i <= items@.len(),
            forall|j: int| 0 <= j < i ==> items@[j] != item,
        decreases items@.len() - i,
    {
        if items[i] == item {
            assert(items@[i as int] == item);
            return true;
        }
        i += 1;
    }
    false
}

/// The distinct dependencies of a program, in order of first occurrence.
pub fn dependencies(program: &ResolvedProgram) -> (result: Vec<Dependency>)
    ensures
        result@ == program_dependencies(program@),
{
    let mut result: Vec<Dependency> = Vec::new();
    let mut i: usize = 0;
    assert(program@.rules.take(0) =~= Seq::empty());
    while i < program.rules.len()
        invariant
            i <= program.rules@.len(),
            result@ == first_occurrences(rules_dependencies(program@.rules.take(i as int))),
        decreases program.rules@.len() - i,
    {
        let rule = &program.rules[i];
        let ghost before = rules_dependencies(program@.rules.take(i as int));
        let ghost own = rule_dependencies(rule@);
        let mut j: usize = 0;
        assert(before + own.take(0) =~= before);
        while j < rule.body.len()
            invariant
                j <= rule.body@.len(),
                own == rule_dependencies(rule@),
                result@ == first_occurrences(before + own.take(j as int)),
            decreases rule.body@.len() - j,
        {
            let literal = &rule.body[j];
            let dependency = Dependency {
                head: rule.head.predicate,
                body: literal.atom.predicate,
                kind: if literal.negated {
                    DependencyKind::Negative
                } else {
                    DependencyKind::Positive
                },
            };
            assert(rule@.body[j as int] == literal@);
            assert(own[j as int] == dependency);
            let ghost next = before + own.take(j + 1);
            assert(next.drop_last() =~= before + own.take(j as int));
            assert(next.last() == dependency);
            if !contains_dependency(&result, dependency) {
                result.push(dependency);
            }
            j += 1;
        }
        assert(own.take(own.len() as int) =~= own);
        let ghost taken = program@.rules.take(i + 1);
        assert(taken.drop_last() =~= program@.rules.take(i as int));
        assert(taken.last() == rule@);
        i += 1;
    }
    assert(program@.rules.take(program@.rules.len() as int) =~= program@.rules);
    result
}

/// The predicates that occur in a program, in ascending order.
fn active_predicates(program: &ResolvedProgram) -> (nodes: Vec<u32>)
    ensures
        sorted::ascending(nodes@),
        forall|id: u32| #[trigger] nodes@.contains(id) <==> is_active(program@, PredicateId(id)),
{
    let mut nodes: Vec<u32> = Vec::new();
    let mut i: usize = 0;
    while i < program.rules.len()
        invariant
            i <= program.rules@.len(),
            sorted::ascending(nodes@),
            forall|id: u32| #[trigger]
                nodes@.contains(id) <==> exists|k: int|
                    0 <= k < i && mentions(#[trigger] program@.rules[k], PredicateId(id)),
        decreases program.rules@.len() - i,
    {
        let rule = &program.rules[i];
        let ghost before = nodes@;
        insert_ascending(&mut nodes, rule.head.predicate.0);
        let mut j: usize = 0;
        while j < rule.body.len()
            invariant
                j <= rule.body@.len(),
                sorted::ascending(nodes@),
                forall|id: u32| #[trigger]
                    nodes@.contains(id) <==> (before.contains(id)
                        || rule@.head.predicate == PredicateId(id) || exists|k: int|
                        0 <= k < j && (#[trigger] rule@.body[k]).atom.predicate == PredicateId(
                            id,
                        )),
            decreases rule.body@.len() - j,
        {
            let literal = &rule.body[j];
            assert(rule@.body[j as int] == literal@);
            let ghost current = nodes@;
            insert_ascending(&mut nodes, literal.atom.predicate.0);
            proof {
                assert forall|id: u32| #[trigger]
                    nodes@.contains(id) <==> (before.contains(id)
                        || rule@.head.predicate == PredicateId(id) || exists|k: int|
                        0 <= k < j + 1 && (#[trigger] rule@.body[k]).atom.predicate == PredicateId(
                            id,
                        )) by {
                    assert(nodes@.contains(id) <==> (current.contains(id)
                        || id == literal.atom.predicate.0));
                    if id == literal.atom.predicate.0 {
                        assert(rule@.body[j as int].atom.predicate == PredicateId(id));
                    }
                    if exists|k: int|
                        0 <= k < j + 1 && (#[trigger] rule@.body[k]).atom.predicate == PredicateId(
                            id,
                        ) {
                        let k = choose|k: int|
                            0 <= k < j + 1 && (#[trigger] rule@.body[k]).atom.predicate
                                == PredicateId(id);
                        if k < j {
                            assert(rule@.body[k].atom.predicate == PredicateId(id));
                            assert(current.contains(id));
                        }
                    }
                }
            }
            j += 1;
        }
        proof {
            assert(program@.rules[i as int] == rule@);
            assert forall|id: u32| #[trigger] nodes@.contains(id) <==> exists|k: int|
                0 <= k < i + 1 && mentions(#[trigger] program@.rules[k], PredicateId(id)) by {
                assert(nodes@.contains(id) <==> (before.contains(id) || mentions(
                    rule@,
                    PredicateId(id),
                )));
                if mentions(rule@, PredicateId(id)) {
                    assert(mentions(program@.rules[i as int], PredicateId(id)));
                }
                if exists|k: int|
                    0 <= k < i + 1 && mentions(#[trigger] program@.rules[k], PredicateId(id)) {
                    let k = choose|k: int|
                        0 <= k < i + 1 && mentions(#[trigger] program@.rules[k], PredicateId(id));
                    if k < i {
                        assert(before.contains(id));
                    }
                }
            }
        }
        i += 1;
    }
    let ghost from_rules = nodes@;
    let mut j: usize = 0;
    while j < program.outputs.len()
        invariant
            j <= program.outputs@.len(),
            sorted::ascending(nodes@),
            forall|id: u32| #[trigger]
                nodes@.contains(id) <==> (from_rules.contains(id) || program.outputs@.take(
                    j as int,
                ).contains(PredicateId(id))),
        decreases program.outputs@.len() - j,
    {
        let ghost current = nodes@;
        let output = program.outputs[j];
        insert_ascending(&mut nodes, output.0);
        proof {
            let before = program.outputs@.take(j as int);
            let after = program.outputs@.take(j + 1);
            assert(after =~= before.push(output));
            assert forall|id: u32| #[trigger]
                nodes@.contains(id) <==> (from_rules.contains(id) || after.contains(
                    PredicateId(id),
                )) by {
                assert(nodes@.contains(id) <==> (current.contains(id) || id == output.0));
                assert(after.contains(PredicateId(id)) <==> (before.contains(PredicateId(id))
                    || PredicateId(id) == output)) by {
                    vstd::seq_lib::lemma_seq_contains_after_push(before, output, PredicateId(id));
                    if after.contains(PredicateId(id)) && PredicateId(id) != output {
                        let m = after.index_of(PredicateId(id));
                        assert(before[m] == PredicateId(id));
                    }
                    if PredicateId(id) == output {
                        assert(after[j as int] == output);
                    }
                }
            }
        }
        j += 1;
    }
    proof {
        assert(program.outputs@.take(program.outputs@.len() as int) =~= program@.outputs);
    }
    nodes
}

/// Whether a list of predicates is strictly ascending.
pub open spec fn ascending_ids(items: Seq<PredicateId>) -> bool {
    forall|i: int, j: int| 0 <= i < j < items.len() ==> items[i].0 < items[j].0
}

/// Whether some group holds a predicate.
pub open spec fn held(groups: Seq<Seq<PredicateId>>, predicate: PredicateId) -> bool {
    exists|k: int| 0 <= k < groups.len() && (#[trigger] groups[k]).contains(predicate)
}

/// Whether a group is a class of mutually dependent predicates of a program, in ascending order.
pub open spec fn is_component(
    program: ResolvedProgramView,
    deps: Seq<Dependency>,
    group: Seq<PredicateId>,
) -> bool {
    &&& group.len() > 0
    &&& ascending_ids(group)
    &&& forall|p: PredicateId, q: PredicateId|
        #![trigger group.contains(p), group.contains(q)]
        group.contains(p) ==> (group.contains(q) <==> is_active(program, q) && graph::mutual(
            deps,
            p,
            q,
        ))
    &&& forall|p: PredicateId| #[trigger] group.contains(p) ==> is_active(program, p)
}

/// Whether everything that a group depends on is in the group itself or in an earlier one.
pub open spec fn is_ready(
    deps: Seq<Dependency>,
    group: Seq<PredicateId>,
    done: Seq<Seq<PredicateId>>,
) -> bool {
    forall|i: int|
        0 <= i < deps.len() && group.contains((#[trigger] deps[i]).head) ==> (group.contains(
            deps[i].body,
        ) || held(done, deps[i].body))
}

/// The order in which the components of a program are evaluated: each as soon as everything that
/// it depends on is done, and of several the one with the smallest predicate first.
pub open spec fn is_evaluation_order(
    program: ResolvedProgramView,
    order: Seq<Seq<PredicateId>>,
) -> bool {
    let deps = program_dependencies(program);
    &&& forall|k: int| 0 <= k < order.len() ==> is_component(program, deps, #[trigger] order[k])
    &&& forall|p: PredicateId| #[trigger] is_active(program, p) ==> held(order, p)
    &&& forall|k: int, l: int, p: PredicateId|
        #![trigger order[k].contains(p), order[l].contains(p)]
        0 <= k < order.len() && 0 <= l < order.len() && order[k].contains(p) && order[l].contains(
            p,
        ) ==> k == l
    &&& forall|k: int|
        0 <= k < order.len() ==> is_ready(deps, #[trigger] order[k], order.take(k))
    &&& forall|k: int, l: int|
        #![trigger order[k], order[l]]
        0 <= k < l < order.len() && is_ready(deps, order[l], order.take(k)) ==> order[k][0].0
            < order[l][0].0
}

/// The groups whose predicates have a given level, in order.
pub open spec fn at_level(
    deps: Seq<Dependency>,
    order: Seq<Seq<PredicateId>>,
    level: nat,
) -> Seq<Seq<PredicateId>>
    decreases order.len(),
{
    if order.len() == 0 {
        Seq::empty()
    } else {
        let earlier = at_level(deps, order.drop_last(), level);
        if graph::is_level(deps, order.last()[0], level) {
            earlier.push(order.last())
        } else {
            earlier
        }
    }
}

/// Whether a component is evaluated by iteration: it has several predicates, or one that depends
/// positively on itself.
pub open spec fn is_recursive(deps: Seq<Dependency>, group: Seq<PredicateId>) -> bool {
    group.len() > 1 || deps.contains(
        Dependency { head: group[0], body: group[0], kind: DependencyKind::Positive },
    )
}

/// A strongly connected component of the predicate dependencies.
#[derive(Debug, Clone, PartialEq, Eq)]
pub struct ScheduledScc {
    pub predicates: Vec<PredicateId>,
    pub recursive: bool,
}

/// The components of one stratum, in evaluation order.
#[derive(Debug, Clone, PartialEq, Eq)]
pub struct ScheduledStratum {
    pub index: usize,
    pub sccs: Vec<ScheduledScc>,
}

#[derive(Debug, Clone, PartialEq, Eq)]
pub struct ProgramSchedule {
    pub dependencies: Vec<Dependency>,
    pub strata: Vec<ScheduledStratum>,
}

#[derive(Debug, Clone, PartialEq, Eq)]
pub enum StratificationError {
    NegativeCycle { head: PredicateId, body: PredicateId },
}

/// The predicate groups of scheduled components.
pub open spec fn groups_of(sccs: Seq<ScheduledScc>) -> Seq<Seq<PredicateId>> {
    Seq::new(sccs.len(), |i: int| sccs[i].predicates@)
}

/// Whether strata hold the components of an evaluation order, split by level.
pub open spec fn follows_order(
    deps: Seq<Dependency>,
    order: Seq<Seq<PredicateId>>,
    strata: Seq<ScheduledStratum>,
) -> bool {
    &&& forall|i: int, j: int|
        #![trigger strata[i], strata[j]]
        0 <= i < j < strata.len() ==> strata[i].index < strata[j].index
    &&& forall|i: int|
        0 <= i < strata.len() ==> {
            &&& (#[trigger] strata[i]).sccs@.len() > 0
            &&& groups_of(strata[i].sccs@) == at_level(deps, order, strata[i].index as nat)
        }
    &&& forall|i: int, j: int|
        #![trigger strata[i].sccs@[j]]
        0 <= i < strata.len() && 0 <= j < strata[i].sccs@.len()
            ==> strata[i].sccs@[j].recursive == is_recursive(
            deps,
            strata[i].sccs@[j].predicates@,
        )
    &&& forall|k: int| 0 <= k < order.len() ==> has_stratum(deps, #[trigger] order[k], strata)
}

/// Whether some stratum has the level of a group.
pub open spec fn has_stratum(
    deps: Seq<Dependency>,
    group: Seq<PredicateId>,
    strata: Seq<ScheduledStratum>,
) -> bool {
    exists|i: int|
        0 <= i < strata.len() && graph::is_level(deps, group[0], (#[trigger] strata[i]).index as nat)
}

/// Whether a schedule evaluates a program: its components in evaluation order, each in the stratum
/// of its level.
pub open spec fn schedules(program: ResolvedProgramView, schedule: ProgramSchedule) -> bool {
    &&& schedule.dependencies@ == program_dependencies(program)
    &&& exists|order: Seq<Seq<PredicateId>>| #[trigger]
        is_evaluation_order(program, order) && follows_order(
            program_dependencies(program),
            order,
            schedule.strata@,
        )
}

/// Whether dependency `index` is the first one that is negative and lies on a cycle.
pub open spec fn is_first_negative_cycle(deps: Seq<Dependency>, index: int) -> bool {
    &&& 0 <= index < deps.len()
    &&& graph::closes_negative_cycle(deps, index)
    &&& forall|i: int| 0 <= i < index ==> !#[trigger] graph::closes_negative_cycle(deps, i)
}

proof fn lemma_first_occurrences_contain(items: Seq<Dependency>, item: Dependency)
    ensures
        first_occurrences(items).contains(item) <==> items.contains(item),
    decreases items.len(),
{
    if items.len() > 0 {
        let rest = items.drop_last();
        lemma_first_occurrences_contain(rest, item);
        lemma_first_occurrences_contain(rest, items.last());
        let earlier = first_occurrences(rest);
        assert(items =~= rest.push(items.last()));
        if items.contains(item) {
            let i = choose|i: int| 0 <= i < items.len() && items[i] == item;
            if i < rest.len() {
                assert(rest[i] == item);
            }
        }
        if rest.contains(item) {
            let i = choose|i: int| 0 <= i < rest.len() && rest[i] == item;
            assert(items[i] == item);
        }
        assert(items[items.len() - 1] == items.last());
        let pushed = earlier.push(items.last());
        assert(pushed[earlier.len() as int] == items.last());
        if pushed.contains(item) && item != items.last() {
            let i = choose|i: int| 0 <= i < pushed.len() && pushed[i] == item;
            assert(earlier[i] == item);
        }
        if earlier.contains(item) {
            let i = choose|i: int| 0 <= i < earlier.len() && earlier[i] == item;
            assert(pushed[i] == item);
        }
    }
}

proof fn lemma_rules_dependencies_contain(rules: Seq<ResolvedRuleView>, item: Dependency)
    ensures
        rules_dependencies(rules).contains(item) <==> exists|i: int, j: int|
            #![trigger rules[i].body[j]]
            0 <= i < rules.len() && 0 <= j < rules[i].body.len() && item == literal_dependency(
                rules[i].head.predicate,
                rules[i].body[j],
            ),
    decreases rules.len(),
{
    let all = rules_dependencies(rules);
    if rules.len() > 0 {
        let rest = rules.drop_last();
        let own = rule_dependencies(rules.last());
        lemma_rules_dependencies_contain(rest, item);
        if all.contains(item) {
            let k = choose|k: int| 0 <= k < all.len() && all[k] == item;
            let base = rules_dependencies(rest);
            if k < base.len() {
                assert(base[k] == item);
                let (i, j) = choose|i: int, j: int|
                    #![trigger rest[i].body[j]]
                    0 <= i < rest.len() && 0 <= j < rest[i].body.len() && item
                        == literal_dependency(rest[i].head.predicate, rest[i].body[j]);
                assert(rules[i].body[j] == rest[i].body[j]);
            } else {
                let i = rules.len() - 1;
                assert(own[k - base.len()] == item);
                assert(rules[i].body[k - base.len()] == rules.last().body[k - base.len()]);
            }
        }
        if exists|i: int, j: int|
            #![trigger rules[i].body[j]]
            0 <= i < rules.len() && 0 <= j < rules[i].body.len() && item == literal_dependency(
                rules[i].head.predicate,
                rules[i].body[j],
            ) {
            let (i, j) = choose|i: int, j: int|
                #![trigger rules[i].body[j]]
                0 <= i < rules.len() && 0 <= j < rules[i].body.len() && item
                    == literal_dependency(rules[i].head.predicate, rules[i].body[j]);
            let base = rules_dependencies(rest);
            if i < rest.len() {
                assert(rest[i].body[j] == rules[i].body[j]);
                let k = choose|k: int| 0 <= k < base.len() && base[k] == item;
                assert(all[k] == item);
            } else {
                assert(own[j] == item);
                assert(all[base.len() + j] == item);
            }
        }
    }
}

/// A program depends on exactly what its body literals say.
pub proof fn lemma_program_dependencies_contain(program: ResolvedProgramView, item: Dependency)
    ensures
        program_dependencies(program).contains(item) <==> exists|i: int, j: int|
            #![trigger program.rules[i].body[j]]
            0 <= i < program.rules.len() && 0 <= j < program.rules[i].body.len() && item
                == literal_dependency(program.rules[i].head.predicate, program.rules[i].body[j]),
{
    lemma_first_occurrences_contain(rules_dependencies(program.rules), item);
    lemma_rules_dependencies_contain(program.rules, item);
}

/// Both ends of a dependency occur in the program.
pub proof fn lemma_dependencies_are_active(program: ResolvedProgramView)
    ensures
        forall|i: int|
            0 <= i < program_dependencies(program).len() ==> {
                &&& is_active(program, (#[trigger] program_dependencies(program)[i]).head)
                &&& is_active(program, program_dependencies(program)[i].body)
            },
{
    let deps = program_dependencies(program);
    assert forall|i: int| 0 <= i < deps.len() implies {
        &&& is_active(program, (#[trigger] deps[i]).head)
        &&& is_active(program, deps[i].body)
    } by {
        assert(deps.contains(deps[i]));
        lemma_program_dependencies_contain(program, deps[i]);
        let (r, j) = choose|r: int, j: int|
            #![trigger program.rules[r].body[j]]
            0 <= r < program.rules.len() && 0 <= j < program.rules[r].body.len() && deps[i]
                == literal_dependency(program.rules[r].head.predicate, program.rules[r].body[j]);
        assert(program.rules[r].body[j].atom.predicate == deps[i].body);
        assert(mentions(program.rules[r], deps[i].head));
        assert(mentions(program.rules[r], deps[i].body));
    }
}

pub(crate) fn contains_predicate(items: &Vec<PredicateId>, item: PredicateId) -> (found: bool)
    ensures
        found == items@.contains(item),
{
    let mut i: usize = 0;
    while i < items.len()
        invariant
            i <= items@.len(),
            forall|j: int| 0 <= j < i ==> items@[j] != item,
        decreases items@.len() - i,
    {
        if items[i] == item {
            assert(items@[i as int] == item);
            return true;
        }
        i += 1;
    }
    false
}

/// A list without repetitions is no longer than a list that holds all of its items.
proof fn lemma_no_longer(small: Seq<PredicateId>, large: Seq<PredicateId>)
    requires
        small.no_duplicates(),
        forall|p: PredicateId| #[trigger] small.contains(p) ==> large.contains(p),
    ensures
        small.len() <= large.len(),
{
    small.unique_seq_to_set();
    large.lemma_cardinality_of_set();
    vstd::seq_lib::seq_to_set_is_finite(large);
    assert(small.to_set().subset_of(large.to_set())) by {
        assert forall|p: PredicateId| #[trigger]
            small.to_set().contains(p) implies large.to_set().contains(p) by {
            assert(small.contains(p));
        }
    }
    vstd::set_lib::lemma_len_subset(small.to_set(), large.to_set());
}

/// The predicates that one predicate depends on, itself included.
fn reachable(
    deps: &Vec<Dependency>,
    nodes: &Vec<PredicateId>,
    source: PredicateId,
) -> (found: Vec<PredicateId>)
    requires
        nodes@.contains(source),
        forall|i: int| 0 <= i < deps@.len() ==> nodes@.contains((#[trigger] deps@[i]).body),
    ensures
        forall|q: PredicateId| #[trigger] found@.contains(q) <==> graph::reaches(deps@, source, q),
{
    let mut found: Vec<PredicateId> = Vec::new();
    found.push(source);
    let mut next: usize = 0;
    proof {
        graph::lemma_walk_empty(deps@, source);
        assert(found@[0] == source);
    }
    while next < found.len()
        invariant
            next <= found@.len(),
            found@.no_duplicates(),
            found@.contains(source),
            nodes@.contains(source),
            forall|i: int| 0 <= i < deps@.len() ==> nodes@.contains((#[trigger] deps@[i]).body),
            forall|q: PredicateId| #[trigger]
                found@.contains(q) ==> graph::reaches(deps@, source, q) && nodes@.contains(q),
            forall|k: int, i: int|
                #![trigger found@[k], deps@[i]]
                0 <= k < next && 0 <= i < deps@.len() && deps@[i].head == found@[k]
                    ==> found@.contains(deps@[i].body),
        decreases nodes@.len() - next,
    {
        let current = found[next];
        assert(found@.contains(current));
        let mut i: usize = 0;
        while i < deps.len()
            invariant
                i <= deps@.len(),
                next < found@.len(),
                current == found@[next as int],
                graph::reaches(deps@, source, current),
                found@.no_duplicates(),
                found@.contains(source),
                forall|i: int| 0 <= i < deps@.len() ==> nodes@.contains((#[trigger] deps@[i]).body),
                forall|q: PredicateId| #[trigger]
                    found@.contains(q) ==> graph::reaches(deps@, source, q) && nodes@.contains(q),
                forall|k: int, i: int|
                    #![trigger found@[k], deps@[i]]
                    0 <= k < next && 0 <= i < deps@.len() && deps@[i].head == found@[k]
                        ==> found@.contains(deps@[i].body),
                forall|j: int|
                    0 <= j < i && (#[trigger] deps@[j]).head == current ==> found@.contains(
                        deps@[j].body,
                    ),
            decreases deps@.len() - i,
        {
            let dep = deps[i];
            if dep.head == current && !contains_predicate(&found, dep.body) {
                let ghost before = found@;
                proof {
                    assert(deps@.contains(deps@[i as int]));
                    graph::lemma_walk_single(deps@, dep);
                    graph::lemma_reaches_transitive(deps@, source, current, dep.body);
                }
                found.push(dep.body);
                proof {
                    assert forall|q: PredicateId| #[trigger] found@.contains(q) <==> (
                    before.contains(q) || q == dep.body) by {
                        if before.contains(q) {
                            let k = choose|k: int| 0 <= k < before.len() && before[k] == q;
                            assert(found@[k] == q);
                        }
                        if found@.contains(q) && q != dep.body {
                            let k = choose|k: int| 0 <= k < found@.len() && found@[k] == q;
                            assert(before[k] == q);
                        }
                        assert(found@[before.len() as int] == dep.body);
                    }
                    assert forall|k: int, l: int|
                        #![trigger found@[k], deps@[l]]
                        0 <= k < next && 0 <= l < deps@.len() && deps@[l].head
                            == found@[k] implies found@.contains(deps@[l].body) by {
                        assert(found@[k] == before[k]);
                        assert(before.contains(deps@[l].body));
                    }
                }
            }
            i += 1;
        }
        next += 1;
        proof {
            lemma_no_longer(found@, nodes@);
        }
    }
    proof {
        let closed = Set::new(|p: PredicateId| found@.contains(p));
        assert forall|i: int|
            0 <= i < deps@.len() && closed.contains((#[trigger] deps@[i]).head) implies closed.contains(
            deps@[i].body,
        ) by {
            let k = choose|k: int| 0 <= k < found@.len() && found@[k] == deps@[i].head;
            assert(found@[k] == deps@[i].head);
        }
        assert forall|q: PredicateId| graph::reaches(deps@, source, q) implies #[trigger] found@.contains(
            q,
        ) by {
            graph::lemma_closed_set_holds_reachable(deps@, closed, source, q);
        }
    }
    found
}

/// The groups of a list of lists.
pub open spec fn lists(groups: Seq<Vec<PredicateId>>) -> Seq<Seq<PredicateId>> {
    Seq::new(groups.len(), |i: int| groups[i]@)
}

fn held_by(groups: &Vec<Vec<PredicateId>>, item: PredicateId) -> (found: bool)
    ensures
        found == held(lists(groups@), item),
{
    let mut k: usize = 0;
    while k < groups.len()
        invariant
            k <= groups@.len(),
            forall|j: int| 0 <= j < k ==> !(#[trigger] groups@[j])@.contains(item),
        decreases groups@.len() - k,
    {
        if contains_predicate(&groups[k], item) {
            assert(lists(groups@)[k as int].contains(item));
            return true;
        }
        k += 1;
    }
    assert forall|j: int| 0 <= j < groups@.len() implies !(#[trigger] lists(
        groups@,
    )[j]).contains(item) by {
        assert(!groups@[j]@.contains(item));
    }
    false
}

/// Whether a table holds what each node depends on.
spec fn is_reach_table(
    deps: Seq<Dependency>,
    nodes: Seq<PredicateId>,
    reach: Seq<Vec<PredicateId>>,
) -> bool {
    &&& reach.len() == nodes.len()
    &&& forall|i: int, q: PredicateId|
        #![trigger reach[i]@.contains(q)]
        0 <= i < nodes.len() ==> (reach[i]@.contains(q) <==> graph::reaches(deps, nodes[i], q))
}

/// The components that hold a prefix of the nodes, ordered by their smallest predicates.
spec fn are_components(
    program: ResolvedProgramView,
    nodes: Seq<PredicateId>,
    groups: Seq<Seq<PredicateId>>,
) -> bool {
    let deps = program_dependencies(program);
    &&& forall|k: int| 0 <= k < groups.len() ==> is_component(program, deps, #[trigger] groups[k])
    &&& forall|i: int| 0 <= i < nodes.len() ==> held(groups, #[trigger] nodes[i])
    &&& forall|k: int, l: int|
        #![trigger groups[k], groups[l]]
        0 <= k < l < groups.len() ==> groups[k][0].0 < groups[l][0].0
}

proof fn lemma_mutual_symmetric(deps: Seq<Dependency>, p: PredicateId, q: PredicateId)
    ensures
        graph::mutual(deps, p, q) == graph::mutual(deps, q, p),
{
}

proof fn lemma_mutual_transitive(
    deps: Seq<Dependency>,
    p: PredicateId,
    q: PredicateId,
    r: PredicateId,
)
    requires
        graph::mutual(deps, p, q),
        graph::mutual(deps, q, r),
    ensures
        graph::mutual(deps, p, r),
{
    graph::lemma_reaches_transitive(deps, p, q, r);
    graph::lemma_reaches_transitive(deps, r, q, p);
}

/// Two components that share a predicate are the same.
pub proof fn lemma_components_disjoint(
    program: ResolvedProgramView,
    a: Seq<PredicateId>,
    b: Seq<PredicateId>,
    p: PredicateId,
)
    requires
        is_component(program, program_dependencies(program), a),
        is_component(program, program_dependencies(program), b),
        a.contains(p),
        b.contains(p),
    ensures
        forall|q: PredicateId| #[trigger] a.contains(q) <==> b.contains(q),
        a == b,
{
    assert forall|q: PredicateId|
        #![trigger a.contains(q)]
        #![trigger b.contains(q)]
        a.contains(q) <==> b.contains(q) by {}
    let x = a.map_values(|id: PredicateId| id.0);
    let y = b.map_values(|id: PredicateId| id.0);
    assert forall|v: u32|
        #![trigger x.contains(v)]
        #![trigger y.contains(v)]
        x.contains(v) <==> y.contains(v) by {
        if x.contains(v) {
            let i = choose|i: int| 0 <= i < x.len() && x[i] == v;
            assert(a.contains(a[i]));
            assert(b.contains(a[i]));
            let j = choose|j: int| 0 <= j < b.len() && b[j] == a[i];
            assert(y[j] == v);
        }
        if y.contains(v) {
            let i = choose|i: int| 0 <= i < y.len() && y[i] == v;
            assert(b.contains(b[i]));
            assert(a.contains(b[i]));
            let j = choose|j: int| 0 <= j < a.len() && a[j] == b[i];
            assert(x[j] == v);
        }
    }
    sorted::lemma_ascending_unique(x, y);
    assert forall|i: int| 0 <= i < a.len() implies a[i] == b[i] by {
        assert(x[i] == y[i]);
    }
    assert(x.len() == y.len());
    assert(a =~= b);
}

/// The classes of mutually dependent nodes, ordered by their smallest predicates.
fn strongly_connected_components(
    program: &ResolvedProgram,
    deps: &Vec<Dependency>,
    nodes: &Vec<PredicateId>,
    reach: &Vec<Vec<PredicateId>>,
) -> (groups: Vec<Vec<PredicateId>>)
    requires
        deps@ == program_dependencies(program@),
        ascending_ids(nodes@),
        forall|p: PredicateId| #[trigger] nodes@.contains(p) <==> is_active(program@, p),
        is_reach_table(deps@, nodes@, reach@),
    ensures
        are_components(program@, nodes@, lists(groups@)),
{
    let mut groups: Vec<Vec<PredicateId>> = Vec::new();
    let mut i: usize = 0;
    while i < nodes.len()
        invariant
            i <= nodes@.len(),
            deps@ == program_dependencies(program@),
            ascending_ids(nodes@),
            forall|p: PredicateId| #[trigger] nodes@.contains(p) <==> is_active(program@, p),
            is_reach_table(deps@, nodes@, reach@),
            are_components(program@, nodes@.take(i as int), lists(groups@)),
            forall|k: int|
                0 <= k < groups@.len() && i < nodes@.len() ==> (#[trigger] groups@[k])@[0].0
                    < nodes@[i as int].0,
        decreases nodes@.len() - i,
    {
        let node = nodes[i];
        let ghost before = lists(groups@);
        if !held_by(&groups, node) {
            let mut group: Vec<PredicateId> = Vec::new();
            group.push(node);
            let mut j: usize = i + 1;
            proof {
                graph::lemma_walk_empty(deps@, node);
                assert(nodes@.contains(nodes@[i as int]));
                assert forall|q: PredicateId| #[trigger] group@.contains(q) <==> graph::mutual(
                    deps@,
                    node,
                    q,
                ) && nodes@.subrange(i as int, j as int).contains(q) by {
                    assert(nodes@.subrange(i as int, j as int) =~= seq![node]);
                    assert(group@ =~= seq![node]);
                    if group@.contains(q) {
                        assert(q == node);
                    }
                }
            }
            while j < nodes.len()
                invariant
                    i < j <= nodes@.len(),
                    node == nodes@[i as int],
                    ascending_ids(nodes@),
                    is_reach_table(deps@, nodes@, reach@),
                    group@.len() > 0,
                    group@[0] == node,
                    ascending_ids(group@),
                    forall|k: int|
                        0 <= k < group@.len() && j < nodes@.len() ==> (#[trigger] group@[k]).0
                            < nodes@[j as int].0,
                    forall|q: PredicateId| #[trigger]
                        group@.contains(q) <==> graph::mutual(deps@, node, q) && nodes@.subrange(
                            i as int,
                            j as int,
                        ).contains(q),
                decreases nodes@.len() - j,
            {
                let other = nodes[j];
                let ghost current = group@;
                let ghost seen = nodes@.subrange(i as int, j as int);
                assert(nodes@.subrange(i as int, j + 1) =~= seen.push(other));
                if contains_predicate(&reach[i], other) && contains_predicate(&reach[j], node) {
                    group.push(other);
                }
                proof {
                    assert(reach@[i as int]@.contains(other) <==> graph::reaches(deps@, node, other));
                    assert(reach@[j as int]@.contains(node) <==> graph::reaches(deps@, other, node));
                    let wider = seen.push(other);
                    assert forall|q: PredicateId| #[trigger] group@.contains(q) <==> graph::mutual(
                        deps@,
                        node,
                        q,
                    ) && wider.contains(q) by {
                        vstd::seq_lib::lemma_seq_contains_after_push(seen, other, q);
                        vstd::seq_lib::lemma_seq_contains_after_push(current, other, q);
                        if wider.contains(q) && q != other {
                            let k = choose|k: int| 0 <= k < wider.len() && wider[k] == q;
                            assert(seen[k] == q);
                        }
                        if current.push(other).contains(q) && q != other {
                            let k = choose|k: int|
                                0 <= k < current.len() + 1 && current.push(other)[k] == q;
                            assert(current[k] == q);
                        }
                        assert(wider[seen.len() as int] == other);
                        assert(current.push(other)[current.len() as int] == other);
                    }
                    if j + 1 < nodes@.len() {
                        assert(nodes@[j as int].0 < nodes@[j + 1].0);
                    }
                }
                j += 1;
            }
            proof {
                lemma_new_component(
                    program@,
                    nodes@,
                    i as int,
                    before,
                    group@,
                );
            }
            groups.push(group);
            assert(lists(groups@) =~= before.push(group@));
        } else {
            assert(are_components(program@, nodes@.take(i + 1), lists(groups@))) by {
                assert forall|m: int| 0 <= m < i + 1 implies held(
                    before,
                    #[trigger] nodes@.take(i + 1)[m],
                ) by {
                    if m < i {
                        assert(nodes@.take(i as int)[m] == nodes@.take(i + 1)[m]);
                    }
                }
            }
        }
        proof {
            if i + 1 < nodes@.len() {
                assert(nodes@[i as int].0 < nodes@[i + 1].0);
            }
        }
        i += 1;
    }
    assert(nodes@.take(nodes@.len() as int) =~= nodes@);
    groups
}

proof fn lemma_new_component(
    program: ResolvedProgramView,
    nodes: Seq<PredicateId>,
    i: int,
    before: Seq<Seq<PredicateId>>,
    group: Seq<PredicateId>,
)
    requires
        0 <= i < nodes.len(),
        ascending_ids(nodes),
        forall|p: PredicateId| #[trigger] nodes.contains(p) <==> is_active(program, p),
        are_components(program, nodes.take(i), before),
        forall|k: int| 0 <= k < before.len() ==> (#[trigger] before[k])[0].0 < nodes[i].0,
        !held(before, nodes[i]),
        group.len() > 0,
        group[0] == nodes[i],
        ascending_ids(group),
        forall|q: PredicateId| #[trigger]
            group.contains(q) <==> graph::mutual(program_dependencies(program), nodes[i], q)
                && nodes.subrange(i, nodes.len() as int).contains(q),
    ensures
        are_components(program, nodes.take(i + 1), before.push(group)),
{
    let deps = program_dependencies(program);
    let node = nodes[i];
    let rest = nodes.subrange(i, nodes.len() as int);
    assert forall|q: PredicateId| #[trigger] group.contains(q) <==> is_active(program, q)
        && graph::mutual(deps, node, q) by {
        if group.contains(q) {
            let k = choose|k: int| 0 <= k < rest.len() && rest[k] == q;
            assert(nodes[i + k] == q);
            assert(nodes.contains(q));
        }
        if is_active(program, q) && graph::mutual(deps, node, q) {
            assert(nodes.contains(q));
            let k = choose|k: int| 0 <= k < nodes.len() && nodes[k] == q;
            if k < i {
                assert(nodes.take(i)[k] == q);
                let c = choose|c: int| 0 <= c < before.len() && (#[trigger] before[c]).contains(q);
                assert(nodes.contains(node));
                assert(before[c].contains(q));
                lemma_mutual_symmetric(deps, node, q);
                assert(before[c].contains(node));
                assert(false);
            }
            assert(rest[k - i] == q);
        }
    }
    assert(is_component(program, deps, group)) by {
        assert forall|p: PredicateId, q: PredicateId|
            #![trigger group.contains(p), group.contains(q)]
            group.contains(p) implies (group.contains(q) <==> is_active(program, q) && graph::mutual(
            deps,
            p,
            q,
        )) by {
            lemma_mutual_symmetric(deps, node, p);
            if group.contains(q) {
                lemma_mutual_transitive(deps, p, node, q);
            }
            if graph::mutual(deps, p, q) {
                lemma_mutual_transitive(deps, node, p, q);
            }
        }
    }
    let after = before.push(group);
    assert forall|m: int| 0 <= m < i + 1 implies held(after, #[trigger] nodes.take(i + 1)[m]) by {
        if m < i {
            assert(nodes.take(i)[m] == nodes[m]);
            let c = choose|c: int|
                0 <= c < before.len() && (#[trigger] before[c]).contains(nodes[m]);
            assert(after[c].contains(nodes[m]));
        } else {
            assert(group.contains(group[0]));
            assert(after[before.len() as int].contains(node));
        }
    }
    assert forall|k: int| 0 <= k < after.len() implies is_component(
        program,
        deps,
        #[trigger] after[k],
    ) by {
        if k < before.len() {
            assert(after[k] == before[k]);
        }
    }
    assert forall|k: int, l: int|
        #![trigger after[k], after[l]]
        0 <= k < l < after.len() implies after[k][0].0 < after[l][0].0 by {
        assert(after[k] == before[k]);
    }
}

/// The predicates that one predicate depends on, itself included.
spec fn reach_set(deps: Seq<Dependency>, p: PredicateId) -> Set<PredicateId> {
    Set::new(|q: PredicateId| graph::reaches(deps, p, q))
}

proof fn lemma_reach_set_finite(
    program: ResolvedProgramView,
    nodes: Seq<PredicateId>,
    p: PredicateId,
)
    requires
        forall|q: PredicateId| #[trigger] nodes.contains(q) <==> is_active(program, q),
        is_active(program, p),
    ensures
        reach_set(program_dependencies(program), p).finite(),
{
    let deps = program_dependencies(program);
    let all = nodes.to_set();
    vstd::seq_lib::seq_to_set_is_finite(nodes);
    lemma_dependencies_are_active(program);
    assert forall|q: PredicateId| #[trigger] reach_set(deps, p).contains(q) implies all.contains(
        q,
    ) by {
        assert(nodes.contains(p));
        assert forall|i: int|
            0 <= i < deps.len() && all.contains((#[trigger] deps[i]).head) implies all.contains(
            deps[i].body,
        ) by {
            assert(nodes.contains(deps[i].body));
        }
        graph::lemma_closed_set_holds_reachable(deps, all, p, q);
    }
    assert(reach_set(deps, p).subset_of(all));
    vstd::set_lib::lemma_set_subset_finite(all, reach_set(deps, p));
}

/// The position of the group whose first predicate depends on the fewest predicates.
proof fn smallest_reach(deps: Seq<Dependency>, groups: Seq<Seq<PredicateId>>) -> (r: int)
    requires
        groups.len() > 0,
    ensures
        0 <= r < groups.len(),
        forall|k: int|
            0 <= k < groups.len() ==> reach_set(deps, groups[r][0]).len() <= reach_set(
                deps,
                (#[trigger] groups[k])[0],
            ).len(),
    decreases groups.len(),
{
    if groups.len() == 1 {
        0
    } else {
        let rest = groups.drop_last();
        let r = smallest_reach(deps, rest);
        let last = groups.len() - 1;
        assert(rest[r] == groups[r]);
        assert forall|k: int| 0 <= k < last implies reach_set(deps, groups[r][0]).len()
            <= reach_set(deps, (#[trigger] groups[k])[0]).len() by {
            assert(rest[k] == groups[k]);
        }
        if reach_set(deps, groups[last][0]).len() < reach_set(deps, groups[r][0]).len() {
            last
        } else {
            r
        }
    }
}

proof fn lemma_some_ready(
    program: ResolvedProgramView,
    nodes: Seq<PredicateId>,
    done: Seq<Seq<PredicateId>>,
    remaining: Seq<Seq<PredicateId>>,
) -> (r: int)
    requires
        forall|q: PredicateId| #[trigger] nodes.contains(q) <==> is_active(program, q),
        remaining.len() > 0,
        forall|k: int|
            0 <= k < remaining.len() ==> is_component(
                program,
                program_dependencies(program),
                #[trigger] remaining[k],
            ),
        forall|p: PredicateId| #[trigger]
            is_active(program, p) ==> held(done, p) || held(remaining, p),
    ensures
        0 <= r < remaining.len(),
        is_ready(program_dependencies(program), remaining[r], done),
{
    let deps = program_dependencies(program);
    let r = smallest_reach(deps, remaining);
    let group = remaining[r];
    let first = group[0];
    assert(is_component(program, deps, group));
    assert(group.contains(first));
    lemma_dependencies_are_active(program);
    assert forall|i: int|
        0 <= i < deps.len() && group.contains((#[trigger] deps[i]).head) implies (group.contains(
        deps[i].body,
    ) || held(done, deps[i].body)) by {
        let head = deps[i].head;
        let body = deps[i].body;
        if !group.contains(body) && !held(done, body) {
            assert(is_active(program, body));
            let o = choose|o: int|
                0 <= o < remaining.len() && (#[trigger] remaining[o]).contains(body);
            let other = remaining[o];
            assert(is_component(program, deps, other));
            let start = other[0];
            assert(other.contains(start));
            assert(graph::mutual(deps, first, head));
            assert(graph::mutual(deps, body, start));
            assert(deps.contains(deps[i]));
            graph::lemma_walk_single(deps, deps[i]);
            graph::lemma_reaches_transitive(deps, first, head, body);
            graph::lemma_reaches_transitive(deps, first, body, start);
            let small = reach_set(deps, start);
            let large = reach_set(deps, first);
            assert forall|x: PredicateId| #[trigger] small.contains(x) implies large.contains(
                x,
            ) by {
                graph::lemma_reaches_transitive(deps, first, start, x);
            }
            graph::lemma_walk_empty(deps, first);
            assert(large.contains(first));
            if small.contains(first) {
                graph::lemma_reaches_transitive(deps, body, start, first);
                graph::lemma_reaches_transitive(deps, body, first, head);
                assert(graph::mutual(deps, head, body));
                assert(group.contains(body));
            }
            lemma_reach_set_finite(program, nodes, first);
            assert(small.subset_of(large.remove(first)));
            vstd::set_lib::lemma_len_subset(small, large.remove(first));
            assert(reach_set(deps, remaining[r][0]).len() <= reach_set(
                deps,
                (remaining[o])[0],
            ).len());
            assert(false);
        }
    }
    r
}

/// Whether everything that a group depends on is in the group itself or in an earlier one.
fn ready(
    deps: &Vec<Dependency>,
    group: &Vec<PredicateId>,
    done: &Vec<Vec<PredicateId>>,
) -> (r: bool)
    ensures
        r == is_ready(deps@, group@, lists(done@)),
{
    let mut i: usize = 0;
    while i < deps.len()
        invariant
            i <= deps@.len(),
            forall|j: int|
                0 <= j < i && group@.contains((#[trigger] deps@[j]).head) ==> (group@.contains(
                    deps@[j].body,
                ) || held(lists(done@), deps@[j].body)),
        decreases deps@.len() - i,
    {
        let dep = deps[i];
        if contains_predicate(group, dep.head) && !contains_predicate(group, dep.body)
            && !held_by(done, dep.body) {
            assert(group@.contains(deps@[i as int].head));
            return false;
        }
        i += 1;
    }
    true
}

/// What holds of the components already ordered and of those that remain.
spec fn is_partial_order(
    program: ResolvedProgramView,
    order: Seq<Seq<PredicateId>>,
    remaining: Seq<Seq<PredicateId>>,
) -> bool {
    let deps = program_dependencies(program);
    &&& forall|k: int| 0 <= k < order.len() ==> is_component(program, deps, #[trigger] order[k])
    &&& forall|k: int|
        0 <= k < remaining.len() ==> is_component(program, deps, #[trigger] remaining[k])
    &&& forall|p: PredicateId| #[trigger]
        is_active(program, p) ==> held(order, p) || held(remaining, p)
    &&& forall|k: int, l: int, p: PredicateId|
        #![trigger order[k].contains(p), order[l].contains(p)]
        0 <= k < order.len() && 0 <= l < order.len() && order[k].contains(p) && order[l].contains(
            p,
        ) ==> k == l
    &&& forall|k: int, l: int, p: PredicateId|
        #![trigger order[k].contains(p), remaining[l].contains(p)]
        0 <= k < order.len() && 0 <= l < remaining.len() && order[k].contains(p)
            ==> !remaining[l].contains(p)
    &&& forall|k: int, l: int|
        #![trigger remaining[k], remaining[l]]
        0 <= k < l < remaining.len() ==> remaining[k][0].0 < remaining[l][0].0
    &&& forall|k: int|
        0 <= k < order.len() ==> is_ready(deps, #[trigger] order[k], order.take(k))
    &&& forall|k: int, l: int|
        #![trigger order[k], order[l]]
        0 <= k < l < order.len() && is_ready(deps, order[l], order.take(k)) ==> order[k][0].0
            < order[l][0].0
    &&& forall|k: int, l: int|
        #![trigger order[k], remaining[l]]
        0 <= k < order.len() && 0 <= l < remaining.len() && is_ready(
            deps,
            remaining[l],
            order.take(k),
        ) ==> order[k][0].0 < remaining[l][0].0
}

proof fn lemma_order_extends(
    program: ResolvedProgramView,
    order: Seq<Seq<PredicateId>>,
    remaining: Seq<Seq<PredicateId>>,
    m: int,
)
    requires
        is_partial_order(program, order, remaining),
        0 <= m < remaining.len(),
        is_ready(program_dependencies(program), remaining[m], order),
        forall|k: int|
            0 <= k < m ==> !is_ready(
                program_dependencies(program),
                #[trigger] remaining[k],
                order,
            ),
    ensures
        is_partial_order(program, order.push(remaining[m]), remaining.remove(m)),
{
    let deps = program_dependencies(program);
    let group = remaining[m];
    let after = order.push(group);
    let rest = remaining.remove(m);
    let last = order.len() as int;
    assert(after.take(last) =~= order);
    assert forall|k: int| 0 <= k < last implies #[trigger] after.take(k) == order.take(k) by {
        assert(after.take(k) =~= order.take(k));
    }
    assert forall|k: int| 0 <= k < rest.len() implies #[trigger] rest[k] == remaining[if k < m {
        k
    } else {
        k + 1
    }] by {}
    assert forall|k: int| 0 <= k < after.len() implies is_component(
        program,
        deps,
        #[trigger] after[k],
    ) by {
        if k < last {
            assert(after[k] == order[k]);
        }
    }
    assert forall|p: PredicateId| #[trigger] is_active(program, p) implies held(after, p) || held(
        rest,
        p,
    ) by {
        if held(order, p) {
            let k = choose|k: int| 0 <= k < order.len() && (#[trigger] order[k]).contains(p);
            assert(after[k].contains(p));
        } else {
            let k = choose|k: int|
                0 <= k < remaining.len() && (#[trigger] remaining[k]).contains(p);
            if k == m {
                assert(after[last].contains(p));
            } else if k < m {
                assert(rest[k].contains(p));
            } else {
                assert(rest[k - 1].contains(p));
            }
        }
    }
    assert forall|k: int, l: int, p: PredicateId|
        #![trigger after[k].contains(p), after[l].contains(p)]
        0 <= k < after.len() && 0 <= l < after.len() && after[k].contains(p) && after[l].contains(
            p,
        ) implies k == l by {
        if k < last && l < last {
            assert(order[k].contains(p) && order[l].contains(p));
        } else if k < last {
            assert(order[k].contains(p) && remaining[m].contains(p));
        } else if l < last {
            assert(order[l].contains(p) && remaining[m].contains(p));
        }
    }
    assert forall|k: int, l: int, p: PredicateId|
        #![trigger after[k].contains(p), rest[l].contains(p)]
        0 <= k < after.len() && 0 <= l < rest.len() && after[k].contains(
            p,
        ) implies !rest[l].contains(p) by {
        let o = if l < m {
            l
        } else {
            l + 1
        };
        assert(rest[l] == remaining[o]);
        if k < last {
            assert(order[k].contains(p));
            assert(!remaining[o].contains(p));
        } else if rest[l].contains(p) {
            lemma_components_disjoint(program, group, remaining[o], p);
            assert(remaining[m][0] == remaining[o][0]);
            assert(false);
        }
    }
    assert forall|k: int| 0 <= k < after.len() implies is_ready(
        deps,
        #[trigger] after[k],
        after.take(k),
    ) by {
        if k < last {
            assert(after[k] == order[k]);
            assert(after.take(k) == order.take(k));
        }
    }
    assert forall|k: int, l: int|
        #![trigger after[k], after[l]]
        0 <= k < l < after.len() && is_ready(
            deps,
            after[l],
            after.take(k),
        ) implies after[k][0].0 < after[l][0].0 by {
        assert(after.take(k) == order.take(k));
        assert(after[k] == order[k]);
        if l < last {
            assert(after[l] == order[l]);
        } else {
            assert(after[l] == remaining[m]);
        }
    }
    assert forall|k: int, l: int|
        #![trigger after[k], rest[l]]
        0 <= k < after.len() && 0 <= l < rest.len() && is_ready(
            deps,
            rest[l],
            after.take(k),
        ) implies after[k][0].0 < rest[l][0].0 by {
        let o = if l < m {
            l
        } else {
            l + 1
        };
        assert(rest[l] == remaining[o]);
        if k < last {
            assert(after.take(k) == order.take(k));
            assert(after[k] == order[k]);
        } else {
            assert(after.take(k) == order);
            assert(o > m);
            assert(remaining[m][0].0 < remaining[o][0].0);
        }
    }
}

/// Orders components so that producers come before consumers, smaller predicates first.
fn topological_components(
    program: &ResolvedProgram,
    deps: &Vec<Dependency>,
    nodes: &Vec<PredicateId>,
    groups: Vec<Vec<PredicateId>>,
) -> (order: Vec<Vec<PredicateId>>)
    requires
        deps@ == program_dependencies(program@),
        forall|p: PredicateId| #[trigger] nodes@.contains(p) <==> is_active(program@, p),
        are_components(program@, nodes@, lists(groups@)),
    ensures
        is_evaluation_order(program@, lists(order@)),
{
    let mut remaining = groups;
    let mut order: Vec<Vec<PredicateId>> = Vec::new();
    proof {
        assert(lists(order@) =~= Seq::<Seq<PredicateId>>::empty());
        assert forall|p: PredicateId| #[trigger] is_active(program@, p) implies held(
            lists(remaining@),
            p,
        ) by {
            assert(nodes@.contains(p));
            let k = choose|k: int| 0 <= k < nodes@.len() && nodes@[k] == p;
            assert(held(lists(remaining@), nodes@[k]));
        }
    }
    while remaining.len() > 0
        invariant
            deps@ == program_dependencies(program@),
            forall|p: PredicateId| #[trigger] nodes@.contains(p) <==> is_active(program@, p),
            is_partial_order(program@, lists(order@), lists(remaining@)),
        decreases remaining@.len(),
    {
        let ghost witness = lemma_some_ready(
            program@,
            nodes@,
            lists(order@),
            lists(remaining@),
        );
        let mut m: usize = 0;
        while !ready(deps, &remaining[m], &order)
            invariant
                m < remaining@.len(),
                0 <= witness < remaining@.len(),
                is_ready(deps@, lists(remaining@)[witness], lists(order@)),
                forall|k: int|
                    0 <= k < m ==> !is_ready(
                        deps@,
                        #[trigger] lists(remaining@)[k],
                        lists(order@),
                    ),
            decreases remaining@.len() - m,
        {
            assert(!is_ready(deps@, lists(remaining@)[m as int], lists(order@)));
            assert(m < witness < remaining.len());
            m += 1;
        }
        proof {
            assert(lists(remaining@)[m as int] == remaining@[m as int]@);
            lemma_order_extends(program@, lists(order@), lists(remaining@), m as int);
        }
        let ghost old_order = lists(order@);
        let ghost old_remaining = lists(remaining@);
        let group = remaining.remove(m);
        order.push(group);
        assert(lists(order@) =~= old_order.push(old_remaining[m as int]));
        assert(lists(remaining@) =~= old_remaining.remove(m as int));
    }
    proof {
        assert(lists(remaining@).len() == 0);
    }
    order
}

fn index_of_group(groups: &Vec<Vec<PredicateId>>, item: PredicateId) -> (k: usize)
    requires
        held(lists(groups@), item),
    ensures
        k < groups@.len(),
        lists(groups@)[k as int].contains(item),
{
    let ghost witness = choose|k: int|
        0 <= k < groups@.len() && (#[trigger] lists(groups@)[k]).contains(item);
    let mut k: usize = 0;
    while !contains_predicate(&groups[k], item)
        invariant
            k < groups@.len(),
            0 <= witness < groups@.len(),
            lists(groups@)[witness].contains(item),
            forall|j: int| 0 <= j < k ==> !(#[trigger] groups@[j])@.contains(item),
        decreases groups@.len() - k,
    {
        assert(k < witness < groups.len());
        k += 1;
    }
    k
}

/// Every walk out of a component has at most as many negations as the component's level, where
/// the level covers every dependency that leaves the component.
proof fn lemma_walks_bounded(
    program: ResolvedProgramView,
    order: Seq<Seq<PredicateId>>,
    levels: Seq<usize>,
    k: int,
    level: nat,
    walk: Seq<Dependency>,
    p: PredicateId,
    to: PredicateId,
)
    requires
        is_evaluation_order(program, order),
        0 <= k < order.len(),
        levels.len() == k,
        forall|i: int|
            0 <= i < program_dependencies(program).len() ==> !#[trigger] graph::closes_negative_cycle(
                program_dependencies(program),
                i,
            ),
        forall|j: int, q: PredicateId|
            #![trigger order[j].contains(q)]
            0 <= j < k && order[j].contains(q) ==> graph::is_level(
                program_dependencies(program),
                q,
                levels[j] as nat,
            ),
        forall|i: int, j: int|
            #![trigger program_dependencies(program)[i], order[j]]
            0 <= i < program_dependencies(program).len() && 0 <= j < k && order[k].contains(
                program_dependencies(program)[i].head,
            ) && order[j].contains(program_dependencies(program)[i].body) ==> levels[j]
                + negation_weight(program_dependencies(program)[i]) <= level,
        order[k].contains(p),
        graph::is_walk(program_dependencies(program), walk, p, to),
    ensures
        graph::negations(walk) <= level,
    decreases walk.len(),
{
    let deps = program_dependencies(program);
    if walk.len() > 0 {
        let dep = walk[0];
        let i = choose|i: int| 0 <= i < deps.len() && deps[i] == dep;
        let rest = walk.drop_first();
        assert(is_ready(deps, order[k], order.take(k)));
        assert(order[k].contains(deps[i].head));
        if order[k].contains(dep.body) {
            assert(is_component(program, deps, order[k]));
            assert(graph::mutual(deps, dep.head, dep.body));
            assert(!graph::closes_negative_cycle(deps, i));
            lemma_walks_bounded(program, order, levels, k, level, rest, dep.body, to);
        } else {
            let j = choose|j: int|
                0 <= j < order.take(k).len() && (#[trigger] order.take(k)[j]).contains(dep.body);
            assert(order[j].contains(dep.body));
            assert(graph::is_walk(deps, rest, dep.body, to));
        }
    }
}

/// One for a negative dependency, nothing for a positive one.
pub open spec fn negation_weight(dep: Dependency) -> nat {
    if dep.kind == DependencyKind::Negative {
        1
    } else {
        0
    }
}

proof fn lemma_level_reached(
    program: ResolvedProgramView,
    order: Seq<Seq<PredicateId>>,
    levels: Seq<usize>,
    k: int,
    level: nat,
    i: int,
    j: int,
)
    requires
        is_evaluation_order(program, order),
        0 <= k < order.len(),
        levels.len() == k,
        forall|i: int|
            0 <= i < program_dependencies(program).len() ==> !#[trigger] graph::closes_negative_cycle(
                program_dependencies(program),
                i,
            ),
        forall|j: int, q: PredicateId|
            #![trigger order[j].contains(q)]
            0 <= j < k && order[j].contains(q) ==> graph::is_level(
                program_dependencies(program),
                q,
                levels[j] as nat,
            ),
        forall|i: int, j: int|
            #![trigger program_dependencies(program)[i], order[j]]
            0 <= i < program_dependencies(program).len() && 0 <= j < k && order[k].contains(
                program_dependencies(program)[i].head,
            ) && order[j].contains(program_dependencies(program)[i].body) ==> levels[j]
                + negation_weight(program_dependencies(program)[i]) <= level,
        level > 0 ==> {
            &&& 0 <= i < program_dependencies(program).len()
            &&& 0 <= j < k
            &&& order[k].contains(program_dependencies(program)[i].head)
            &&& order[j].contains(program_dependencies(program)[i].body)
            &&& level == levels[j] + negation_weight(program_dependencies(program)[i])
        },
    ensures
        forall|p: PredicateId| #[trigger]
            order[k].contains(p) ==> graph::is_level(program_dependencies(program), p, level),
{
    let deps = program_dependencies(program);
    assert forall|p: PredicateId| #[trigger] order[k].contains(p) implies graph::is_level(
        deps,
        p,
        level,
    ) by {
        assert forall|walk: Seq<Dependency>, to: PredicateId| #[trigger]
            graph::is_walk(deps, walk, p, to) implies graph::negations(walk) <= level by {
            lemma_walks_bounded(program, order, levels, k, level, walk, p, to);
        }
        if level == 0 {
            graph::lemma_walk_empty(deps, p);
            assert(graph::is_walk(deps, Seq::empty(), p, p) && graph::negations(Seq::empty()) == 0);
        } else {
            let dep = deps[i];
            assert(is_component(program, deps, order[k]));
            assert(graph::mutual(deps, p, dep.head));
            let first = choose|walk: Seq<Dependency>| graph::is_walk(deps, walk, p, dep.head);
            assert(graph::is_level(deps, dep.body, levels[j] as nat));
            let (tail, to) = choose|walk: Seq<Dependency>, to: PredicateId| #[trigger]
                graph::is_walk(deps, walk, dep.body, to) && graph::negations(walk) == levels[j] as nat;
            assert(deps.contains(dep));
            graph::lemma_walk_single(deps, dep);
            graph::lemma_walk_append(deps, seq![dep], tail, dep.head, dep.body, to);
            graph::lemma_walk_append(deps, first, seq![dep] + tail, p, dep.head, to);
            assert(graph::is_walk(deps, first + (seq![dep] + tail), p, to));
        }
    }
}

/// The level of each component of an evaluation order.
fn component_levels(
    program: &ResolvedProgram,
    deps: &Vec<Dependency>,
    order: &Vec<Vec<PredicateId>>,
) -> (levels: Vec<usize>)
    requires
        deps@ == program_dependencies(program@),
        is_evaluation_order(program@, lists(order@)),
        forall|i: int| 0 <= i < deps@.len() ==> !#[trigger] graph::closes_negative_cycle(deps@, i),
    ensures
        levels@.len() == order@.len(),
        forall|k: int, p: PredicateId|
            #![trigger lists(order@)[k].contains(p)]
            0 <= k < order@.len() && lists(order@)[k].contains(p) ==> graph::is_level(
                deps@,
                p,
                levels@[k] as nat,
            ),
        forall|k: int| 0 <= k < order@.len() ==> #[trigger] levels@[k] <= k,
{
    let mut levels: Vec<usize> = Vec::new();
    let ghost groups = lists(order@);
    let mut k: usize = 0;
    while k < order.len()
        invariant
            k <= order@.len(),
            levels@.len() == k,
            groups == lists(order@),
            deps@ == program_dependencies(program@),
            is_evaluation_order(program@, groups),
            forall|i: int| 0 <= i < deps@.len() ==> !#[trigger] graph::closes_negative_cycle(deps@, i),
            forall|j: int, p: PredicateId|
                #![trigger groups[j].contains(p)]
                0 <= j < k && groups[j].contains(p) ==> graph::is_level(deps@, p, levels@[j] as nat),
            forall|j: int| 0 <= j < k ==> #[trigger] levels@[j] <= j,
        decreases order@.len() - k,
    {
        let group = &order[k];
        let mut level: usize = 0;
        let ghost mut best_dep: int = 0;
        let ghost mut best_group: int = 0;
        let mut i: usize = 0;
        assert(groups[k as int] == group@);
        while i < deps.len()
            invariant
                i <= deps@.len(),
                k < order@.len(),
                levels@.len() == k,
                groups == lists(order@),
                group@ == groups[k as int],
                deps@ == program_dependencies(program@),
                is_evaluation_order(program@, groups),
                level <= k,
                forall|j: int| 0 <= j < k ==> #[trigger] levels@[j] <= j,
                level > 0 ==> {
                    &&& 0 <= best_dep < i
                    &&& 0 <= best_group < k
                    &&& groups[k as int].contains(deps@[best_dep].head)
                    &&& groups[best_group].contains(deps@[best_dep].body)
                    &&& level == levels@[best_group] + negation_weight(deps@[best_dep])
                },
                forall|d: int, j: int|
                    #![trigger deps@[d], groups[j]]
                    0 <= d < i && 0 <= j < k && groups[k as int].contains(deps@[d].head)
                        && groups[j].contains(deps@[d].body) ==> levels@[j] + negation_weight(
                        deps@[d],
                    ) <= level,
            decreases deps@.len() - i,
        {
            let dep = deps[i];
            if contains_predicate(group, dep.head) && !contains_predicate(group, dep.body) {
                proof {
                    assert(is_ready(deps@, groups[k as int], groups.take(k as int)));
                    assert(groups[k as int].contains(deps@[i as int].head));
                    let o = choose|o: int|
                        0 <= o < groups.take(k as int).len() && (#[trigger] groups.take(
                            k as int,
                        )[o]).contains(dep.body);
                    assert(groups[o].contains(dep.body));
                }
                let j: usize = index_of_group(order, dep.body);
                proof {
                    let o = choose|o: int|
                        0 <= o < groups.take(k as int).len() && (#[trigger] groups.take(
                            k as int,
                        )[o]).contains(dep.body);
                    assert(groups[o].contains(dep.body));
                    assert(groups[j as int].contains(dep.body));
                    assert(o == j);
                    assert(levels@[j as int] <= j);
                }
                let weight: usize = if dep.kind == DependencyKind::Negative {
                    1
                } else {
                    0
                };
                let required: usize = levels[j] + weight;
                if level < required {
                    level = required;
                    proof {
                        best_dep = i as int;
                        best_group = j as int;
                    }
                }
                proof {
                    assert forall|d: int, o: int|
                        #![trigger deps@[d], groups[o]]
                        0 <= d < i + 1 && 0 <= o < k && groups[k as int].contains(deps@[d].head)
                            && groups[o].contains(deps@[d].body) implies levels@[o]
                        + negation_weight(deps@[d]) <= level by {
                        if d == i {
                            assert(groups[o].contains(dep.body) && groups[j as int].contains(
                                dep.body,
                            ));
                            assert(o == j);
                        }
                    }
                }
            } else {
                proof {
                    assert forall|d: int, o: int|
                        #![trigger deps@[d], groups[o]]
                        0 <= d < i + 1 && 0 <= o < k && groups[k as int].contains(deps@[d].head)
                            && groups[o].contains(deps@[d].body) implies levels@[o]
                        + negation_weight(deps@[d]) <= level by {
                        if d == i {
                            assert(groups[o].contains(dep.body) && groups[k as int].contains(
                                dep.body,
                            ));
                            assert(false);
                        }
                    }
                }
            }
            i += 1;
        }
        proof {
            lemma_level_reached(
                program@,
                groups,
                levels@,
                k as int,
                level as nat,
                best_dep,
                best_group,
            );
        }
        let ghost before = levels@;
        levels.push(level);
        proof {
            assert forall|j: int, p: PredicateId|
                #![trigger groups[j].contains(p)]
                0 <= j < k + 1 && groups[j].contains(p) implies graph::is_level(
                deps@,
                p,
                levels@[j] as nat,
            ) by {
                if j < k {
                    assert(levels@[j] == before[j]);
                }
            }
        }
        k += 1;
    }
    levels
}

fn copy_predicates(items: &Vec<PredicateId>) -> (copy: Vec<PredicateId>)
    ensures
        copy@ == items@,
{
    let mut copy: Vec<PredicateId> = Vec::new();
    let mut i: usize = 0;
    while i < items.len()
        invariant
            i <= items@.len(),
            copy@ == items@.take(i as int),
        decreases items@.len() - i,
    {
        copy.push(items[i]);
        i += 1;
        assert(copy@ =~= items@.take(i as int));
    }
    assert(copy@ =~= items@);
    copy
}

/// The components with a given level, in order.
fn stratum_sccs(
    program: &ResolvedProgram,
    deps: &Vec<Dependency>,
    order: &Vec<Vec<PredicateId>>,
    levels: &Vec<usize>,
    level: usize,
) -> (sccs: Vec<ScheduledScc>)
    requires
        is_evaluation_order(program@, lists(order@)),
        levels@.len() == order@.len(),
        deps@ == program_dependencies(program@),
        forall|k: int, p: PredicateId|
            #![trigger lists(order@)[k].contains(p)]
            0 <= k < order@.len() && lists(order@)[k].contains(p) ==> graph::is_level(
                deps@,
                p,
                levels@[k] as nat,
            ),
    ensures
        groups_of(sccs@) == at_level(deps@, lists(order@), level as nat),
        forall|j: int|
            0 <= j < sccs@.len() ==> (#[trigger] sccs@[j]).recursive == is_recursive(
                deps@,
                sccs@[j].predicates@,
            ),
        (exists|k: int| 0 <= k < levels@.len() && levels@[k] == level) ==> sccs@.len() > 0,
{
    let mut sccs: Vec<ScheduledScc> = Vec::new();
    let ghost groups = lists(order@);
    let mut k: usize = 0;
    assert(groups.take(0) =~= Seq::empty());
    assert(groups_of(sccs@) =~= Seq::<Seq<PredicateId>>::empty());
    while k < order.len()
        invariant
            k <= order@.len(),
            groups == lists(order@),
            is_evaluation_order(program@, groups),
            levels@.len() == order@.len(),
            deps@ == program_dependencies(program@),
            forall|k: int, p: PredicateId|
                #![trigger groups[k].contains(p)]
                0 <= k < order@.len() && groups[k].contains(p) ==> graph::is_level(
                    deps@,
                    p,
                    levels@[k] as nat,
                ),
            groups_of(sccs@) == at_level(deps@, groups.take(k as int), level as nat),
            forall|j: int|
                0 <= j < sccs@.len() ==> (#[trigger] sccs@[j]).recursive == is_recursive(
                    deps@,
                    sccs@[j].predicates@,
                ),
            (exists|m: int| 0 <= m < k && levels@[m] == level) ==> sccs@.len() > 0,
        decreases order@.len() - k,
    {
        proof {
            let next = groups.take(k + 1);
            assert(next.drop_last() =~= groups.take(k as int));
            assert(next.last() == groups[k as int]);
            assert(is_component(program@, deps@, groups[k as int]));
            assert(groups[k as int].contains(groups[k as int][0]));
            if graph::is_level(deps@, groups[k as int][0], level as nat) {
                graph::lemma_level_unique(
                    deps@,
                    groups[k as int][0],
                    level as nat,
                    levels@[k as int] as nat,
                );
            }
        }
        if levels[k] == level {
            let predicates = copy_predicates(&order[k]);
            let first = predicates[0];
            let recursive = predicates.len() > 1 || contains_dependency(
                deps,
                Dependency { head: first, body: first, kind: DependencyKind::Positive },
            );
            let ghost before = sccs@;
            sccs.push(ScheduledScc { predicates, recursive });
            assert(groups_of(sccs@) =~= groups_of(before).push(groups[k as int]));
        }
        k += 1;
    }
    assert(groups.take(groups.len() as int) =~= groups);
    sccs
}

/// Splits the rules of a program into strata of strongly connected components.
///
/// Fails on the first negative dependency between two predicates of one component.
pub fn stratify(program: &ResolvedProgram) -> (result: Result<
    ProgramSchedule,
    StratificationError,
>)
    ensures
        result is Err <==> exists|i: int|
            0 <= i < program_dependencies(program@).len() && graph::closes_negative_cycle(
                program_dependencies(program@),
                i,
            ),
        result matches Err(StratificationError::NegativeCycle { head, body }) ==> exists|i: int| #[trigger]
            is_first_negative_cycle(program_dependencies(program@), i) && head
                == program_dependencies(program@)[i].head && body == program_dependencies(
                program@,
            )[i].body,
        result matches Ok(schedule) ==> schedules(program@, schedule),
{
    let dependencies = dependencies(program);
    let ids = active_predicates(program);
    let mut nodes: Vec<PredicateId> = Vec::new();
    let mut i: usize = 0;
    while i < ids.len()
        invariant
            i <= ids@.len(),
            nodes@.len() == i,
            forall|j: int| 0 <= j < i ==> #[trigger] nodes@[j] == PredicateId(ids@[j]),
        decreases ids@.len() - i,
    {
        nodes.push(PredicateId(ids[i]));
        i += 1;
    }
    proof {
        assert forall|p: PredicateId| #[trigger] nodes@.contains(p) <==> is_active(program@, p) by {
            assert(ids@.contains(p.0) <==> is_active(program@, PredicateId(p.0)));
            if nodes@.contains(p) {
                let j = choose|j: int| 0 <= j < nodes@.len() && nodes@[j] == p;
                assert(ids@[j] == p.0);
            }
            if ids@.contains(p.0) {
                let j = choose|j: int| 0 <= j < ids@.len() && ids@[j] == p.0;
                assert(nodes@[j] == p);
            }
        }
        assert(ascending_ids(nodes@));
        lemma_dependencies_are_active(program@);
        assert forall|j: int| 0 <= j < dependencies@.len() implies nodes@.contains(
            (#[trigger] dependencies@[j]).body,
        ) && nodes@.contains(dependencies@[j].head) by {
            assert(is_active(program@, program_dependencies(program@)[j].body));
        }
    }
    let mut reach: Vec<Vec<PredicateId>> = Vec::new();
    let mut n: usize = 0;
    while n < nodes.len()
        invariant
            n <= nodes@.len(),
            reach@.len() == n,
            forall|j: int|
                0 <= j < dependencies@.len() ==> nodes@.contains(
                    (#[trigger] dependencies@[j]).body,
                ),
            forall|i: int, q: PredicateId|
                #![trigger reach@[i]@.contains(q)]
                0 <= i < n ==> (reach@[i]@.contains(q) <==> graph::reaches(dependencies@, nodes@[i], q)),
        decreases nodes@.len() - n,
    {
        assert(nodes@.contains(nodes@[n as int]));
        let ghost before = reach@;
        let found = reachable(&dependencies, &nodes, nodes[n]);
        reach.push(found);
        assert(forall|i: int| 0 <= i < n ==> #[trigger] reach@[i] == before[i]);
        n += 1;
    }
    let mut d: usize = 0;
    while d < dependencies.len()
        invariant
            d <= dependencies@.len(),
            dependencies@ == program_dependencies(program@),
            forall|j: int|
                0 <= j < dependencies@.len() ==> nodes@.contains(
                    (#[trigger] dependencies@[j]).body,
                ),
            forall|j: int| 0 <= j < d ==> !#[trigger] graph::closes_negative_cycle(dependencies@, j),
        decreases dependencies@.len() - d,
    {
        let dependency = dependencies[d];
        if dependency.kind == DependencyKind::Negative {
            assert(nodes@.contains(dependencies@[d as int].body));
            let found = reachable(&dependencies, &nodes, dependency.body);
            proof {
                assert(dependencies@.contains(dependencies@[d as int]));
                graph::lemma_walk_single(dependencies@, dependency);
            }
            if contains_predicate(&found, dependency.head) {
                assert(is_first_negative_cycle(program_dependencies(program@), d as int));
                return Err(
                    StratificationError::NegativeCycle {
                        head: dependency.head,
                        body: dependency.body,
                    },
                );
            }
        }
        d += 1;
    }
    let groups = strongly_connected_components(program, &dependencies, &nodes, &reach);
    let order = topological_components(program, &dependencies, &nodes, groups);
    let levels = component_levels(program, &dependencies, &order);
    let mut strata: Vec<ScheduledStratum> = Vec::new();
    let mut level: usize = 0;
    while level < order.len()
        invariant
            level <= order@.len(),
            dependencies@ == program_dependencies(program@),
            is_evaluation_order(program@, lists(order@)),
            levels@.len() == order@.len(),
            forall|k: int, p: PredicateId|
                #![trigger lists(order@)[k].contains(p)]
                0 <= k < order@.len() && lists(order@)[k].contains(p) ==> graph::is_level(
                    dependencies@,
                    p,
                    levels@[k] as nat,
                ),
            forall|i: int, j: int|
                #![trigger strata@[i], strata@[j]]
                0 <= i < j < strata@.len() ==> strata@[i].index < strata@[j].index,
            forall|i: int| 0 <= i < strata@.len() ==> (#[trigger] strata@[i]).index < level,
            forall|i: int|
                0 <= i < strata@.len() ==> {
                    &&& (#[trigger] strata@[i]).sccs@.len() > 0
                    &&& groups_of(strata@[i].sccs@) == at_level(
                        dependencies@,
                        lists(order@),
                        strata@[i].index as nat,
                    )
                },
            forall|i: int, j: int|
                #![trigger strata@[i].sccs@[j]]
                0 <= i < strata@.len() && 0 <= j < strata@[i].sccs@.len()
                    ==> strata@[i].sccs@[j].recursive == is_recursive(
                    dependencies@,
                    strata@[i].sccs@[j].predicates@,
                ),
            forall|k: int|
                0 <= k < order@.len() && #[trigger] levels@[k] < level ==> exists|i: int|
                    0 <= i < strata@.len() && (#[trigger] strata@[i]).index == levels@[k],
        decreases order@.len() - level,
    {
        let sccs = stratum_sccs(program, &dependencies, &order, &levels, level);
        let ghost before = strata@;
        if sccs.len() > 0 {
            strata.push(ScheduledStratum { index: level, sccs });
            assert(forall|i: int| 0 <= i < before.len() ==> #[trigger] strata@[i] == before[i]);
        }
        proof {
            assert forall|k: int|
                0 <= k < order@.len() && #[trigger] levels@[k] < level + 1 implies exists|i: int|
                0 <= i < strata@.len() && (#[trigger] strata@[i]).index == levels@[k] by {
                if levels@[k] < level {
                    let i = choose|i: int|
                        0 <= i < before.len() && (#[trigger] before[i]).index == levels@[k];
                    assert(strata@[i].index == levels@[k]);
                } else {
                    assert(strata@[before.len() as int].index == levels@[k]);
                }
            }
        }
        level += 1;
    }
    proof {
        let groups = lists(order@);
        assert forall|k: int| 0 <= k < groups.len() implies has_stratum(
            dependencies@,
            #[trigger] groups[k],
            strata@,
        ) by {
            assert(is_component(program@, dependencies@, groups[k]));
            assert(groups[k].contains(groups[k][0]));
            assert(levels@[k] < order@.len());
            let i = choose|i: int|
                0 <= i < strata@.len() && (#[trigger] strata@[i]).index == levels@[k];
            assert(graph::is_level(dependencies@, groups[k][0], strata@[i].index as nat));
        }
        assert(follows_order(dependencies@, groups, strata@));
    }
    Ok(ProgramSchedule { dependencies, strata })
}

impl StratificationError {
    /// What the error says.
    pub open spec fn text(self) -> Seq<char> {
        match self {
            StratificationError::NegativeCycle { head, body } => "negative dependency "@ + text::decimal(
                head.0 as nat,
            ) + " -> "@ + text::decimal(body.0 as nat) + " occurs inside a recursive SCC"@,
        }
    }

    pub fn message(&self) -> (message: String)
        ensures
            message@ == self.text(),
    {
        match self {
            StratificationError::NegativeCycle { head, body } => {
                let mut message = "negative dependency ".to_owned();
                message.append(decimal_text(head.0 as usize).as_str());
                message.append(" -> ");
                message.append(decimal_text(body.0 as usize).as_str());
                message.append(" occurs inside a recursive SCC");
                message
            },
        }
    }
}

} // verus!
