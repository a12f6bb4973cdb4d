//! What a round of a component adds, why a component is refused, and where its operators run.
use vstd::prelude::*;

use crate::execution_binary;
use crate::executor;
use crate::executor::{GenericErrorView, RelationKinds, RelationStoreError, SccSummary};
use crate::operator_laws::runs_on;
use crate::pairs;
use crate::pairs::Pair;
use crate::placement::{InputProvenance, Placement};
use crate::recursion;
use crate::recursion::IterationPolicies;
use crate::relational::{JoinInput, RecursiveRulePlan, RecursiveSccPlan, RelationId};
use crate::rounds;
use crate::rounds::Relations;
use crate::steps;
use crate::steps::{RoundAction, RoundOperator, RoundStart};
use crate::storage::RelationView;

verus! {

/// The first or the second number of a pair.
pub open spec fn part(pair: Pair, column: u32) -> u32 {
    if column == 0 {
        pair.0
    } else {
        pair.1
    }
}

/// What a rule takes for a column of its join from a pair of each side.
pub open spec fn output_of(rule: RecursiveRulePlan, left: Pair, right: Pair, column: u32) -> u32 {
    let projection = rule.join.output@[if column == 0 {
        0int
    } else {
        1int
    }];
    if projection.input == JoinInput::Left {
        part(left, projection.column)
    } else {
        part(right, projection.column)
    }
}

/// Whether a rule makes a pair of two that hold the same key: of the columns that it keeps of what
/// its join gives.
pub open spec fn makes(rule: RecursiveRulePlan, left: Pair, right: Pair, made: Pair) -> bool {
    &&& part(left, rule.join.left_key) == part(right, rule.join.right_key)
    &&& made.0 == output_of(rule, left, right, rule.distinct.columns@[0])
    &&& made.1 == output_of(rule, left, right, rule.distinct.columns@[1])
}

/// Whether a rule for a relation makes a pair of a newest pair and a known one.
pub open spec fn is_made(
    rules: Seq<RecursiveRulePlan>,
    id: RelationId,
    relations: Relations,
    made: Pair,
) -> bool {
    exists|k: int, left: Pair, right: Pair|
        0 <= k < rules.len() && #[trigger] makes(rules[k], left, right, made) && rules[k].target
            == id && relations(rules[k].delta_input).delta.contains(left) && relations(
            rules[k].right_input,
        ).full.contains(right)
}

proof fn lemma_makes(rule: RecursiveRulePlan, left: Pair, right: Pair, made: Pair)
    ensures
        makes(rule, left, right, made) <==> rounds::yields(rule, left, right, made),
{
}

proof fn lemma_made(
    rules: Seq<RecursiveRulePlan>,
    id: RelationId,
    relations: Relations,
    made: Pair,
)
    ensures
        is_made(rules, id, relations, made) <==> rounds::follows_by(rules, id, relations, made),
{
    if is_made(rules, id, relations, made) {
        let (k, left, right) = choose|k: int, left: Pair, right: Pair|
            0 <= k < rules.len() && #[trigger] makes(rules[k], left, right, made)
                && rules[k].target == id && relations(rules[k].delta_input).delta.contains(left)
                && relations(rules[k].right_input).full.contains(right);
        lemma_makes(rules[k], left, right, made);
        assert(rounds::some_yield(
            rules[k],
            relations(rules[k].delta_input).delta,
            relations(rules[k].right_input).full,
            made,
        ));
    }
    if rounds::follows_by(rules, id, relations, made) {
        let k = choose|k: int|
            0 <= k < rules.len() && (#[trigger] rules[k]).target == id && rounds::some_yield(
                rules[k],
                relations(rules[k].delta_input).delta,
                relations(rules[k].right_input).full,
                made,
            );
        let delta = relations(rules[k].delta_input).delta;
        let full = relations(rules[k].right_input).full;
        let (left, right) = choose|left: Pair, right: Pair| #[trigger]
            rounds::yields(rules[k], left, right, made) && delta.contains(left) && full.contains(
                right,
            );
        lemma_makes(rules[k], left, right, made);
    }
}

/// A round adds to a relation exactly the pairs that its rules make and that it does not have, each
/// once, in ascending order. These are its newest pairs then. A relation without rules stays as it
/// is.
pub proof fn law_round(rules: Seq<RecursiveRulePlan>, relations: Relations, id: RelationId)
    requires
        rounds::rights_numbered(rules, relations),
        forall|k: int|
            0 <= k < rules.len() ==> recursion::is_binary_join((#[trigger] rules[k]).join),
    ensures
        ({
            let before = relations(id);
            let after = rounds::after_round(rules, relations)(id);
            if exists|k: int| 0 <= k < rules.len() && (#[trigger] rules[k]).target == id {
                &&& forall|p: Pair| #[trigger]
                    after.delta.contains(p) <==> is_made(rules, id, relations, p)
                        && !before.full.contains(p)
                &&& forall|p: Pair| #[trigger]
                    after.full.contains(p) <==> before.full.contains(p) || is_made(
                        rules,
                        id,
                        relations,
                        p,
                    )
                &&& pairs::pairs_ascending(after.delta)
                &&& pairs::pairs_ascending(after.full)
            } else {
                after == before
            }
        }),
{
    rounds::law_target_new(rules, id, relations);
    assert forall|p: Pair| #[trigger] is_made(rules, id, relations, p) <==> rounds::follows_by(
        rules,
        id,
        relations,
        p,
    ) by {
        lemma_made(rules, id, relations, p);
    }
    let after = rounds::after_round(rules, relations)(id);
    if rounds::has_rule(rules, id) {
        let new = rounds::new_pairs(rules, id, relations);
        assert(after.delta == new);
        assert(after.full == rounds::with_new(relations(id).full, new));
        assert forall|p: Pair| #[trigger] after.delta.contains(p) <==> is_made(
            rules,
            id,
            relations,
            p,
        ) && !relations(id).full.contains(p) by {
            lemma_made(rules, id, relations, p);
        }
        assert forall|p: Pair| #[trigger] after.full.contains(p) <==> relations(id).full.contains(p)
            || is_made(rules, id, relations, p) by {
            lemma_made(rules, id, relations, p);
        }
    }
}

/// How many pairs some first relations have.
pub open spec fn pair_total(ids: Seq<RelationId>, relations: Relations, count: int) -> nat
    decreases count,
{
    if count <= 0 {
        0
    } else {
        pair_total(ids, relations, count - 1) + relations(ids[count - 1]).full.len()
    }
}

proof fn lemma_targets(rules: Seq<RecursiveRulePlan>)
    ensures
        forall|t: int|
            0 <= t < rounds::targets_of(rules).len() ==> rounds::has_rule(
                rules,
                #[trigger] rounds::targets_of(rules)[t],
            ),
    decreases rules.len(),
{
    if rules.len() > 0 {
        let rest = rules.drop_last();
        lemma_targets(rest);
        let names = rounds::targets_of(rules);
        let earlier = rounds::targets_of(rest);
        assert forall|t: int| 0 <= t < names.len() implies rounds::has_rule(
            rules,
            #[trigger] names[t],
        ) by {
            if t < earlier.len() {
                assert(names[t] == earlier[t]);
                assert(rounds::has_rule(rest, earlier[t]));
                let j = choose|j: int|
                    0 <= j < rest.len() && (#[trigger] rest[j]).target == earlier[t];
                assert(rules[j].target == names[t]);
            } else {
                assert(rules[rules.len() - 1].target == names[t]);
            }
        }
    }
}

proof fn lemma_round_counts(rules: Seq<RecursiveRulePlan>, relations: Relations, count: int)
    requires
        0 <= count <= rounds::targets_of(rules).len(),
        forall|t: int|
            0 <= t < rounds::targets_of(rules).len() ==> pairs::pairs_ascending(
                relations(#[trigger] rounds::targets_of(rules)[t]).full,
            ),
    ensures
        pair_total(
            rounds::targets_of(rules),
            rounds::after_round(rules, relations),
            count,
        ) == pair_total(rounds::targets_of(rules), relations, count) + executor::new_count(
            rules,
            relations,
            count,
        ),
    decreases count,
{
    if count > 0 {
        lemma_round_counts(rules, relations, count - 1);
        lemma_targets(rules);
        let id = rounds::targets_of(rules)[count - 1];
        let known = relations(id).full;
        let own = rounds::contributed(rounds::rules_for(rules, id), relations);
        let candidates = rounds::distinct_list(own);
        rounds::law_distinct_list(own);
        let new = rounds::new_pairs(rules, id, relations);
        let all = rounds::with_new(known, new);
        rounds::law_distinct_list(known + new);
        assert(pairs::is_union(all, known, new));
        assert(pairs::pairs_ascending(known));
        rounds::law_difference_and_union(known, candidates, all);
        assert(rounds::after_round(rules, relations)(id).full == all);
    }
}

/// The pairs that rounds are said to add are those by which the relations grow.
pub proof fn law_new_pairs_are_counted(
    rules: Seq<RecursiveRulePlan>,
    start: Relations,
    count: nat,
)
    requires
        forall|t: int|
            0 <= t < rounds::targets_of(rules).len() ==> pairs::pairs_ascending(
                start(#[trigger] rounds::targets_of(rules)[t]).full,
            ),
    ensures
        ({
            let ids = rounds::targets_of(rules);
            let after = rounds::after_rounds(rules, start, count);
            &&& pair_total(ids, after, ids.len() as int) == pair_total(
                ids,
                start,
                ids.len() as int,
            ) + executor::total_count(rules, start, count)
            &&& forall|t: int|
                0 <= t < ids.len() ==> pairs::pairs_ascending(after(#[trigger] ids[t]).full)
        }),
    decreases count,
{
    if count > 0 {
        law_new_pairs_are_counted(rules, start, (count - 1) as nat);
        let before = rounds::after_rounds(rules, start, (count - 1) as nat);
        let ids = rounds::targets_of(rules);
        lemma_round_counts(rules, before, ids.len() as int);
        lemma_targets(rules);
        let after = rounds::after_rounds(rules, start, count);
        assert forall|t: int| 0 <= t < ids.len() implies pairs::pairs_ascending(
            after(#[trigger] ids[t]).full,
        ) by {
            let new = rounds::new_pairs(rules, ids[t], before);
            rounds::law_distinct_list(before(ids[t]).full + new);
        }
    }
}

/// Why a component is refused: it has no relations; else for its first relation that is missing or
/// has no newest rows; else for its first rule whose inputs are missing or whose target is outside;
/// else for its first relation without a rule.
pub proof fn law_component_refusals(
    kinds: RelationKinds,
    ids: Seq<RelationId>,
    rules: Seq<RecursiveRulePlan>,
    i: int,
)
    ensures
        ({
            let found = executor::component_problem(kinds, ids, rules);
            let fine = |k: int| kinds(ids[k]) == Some(true);
            let sound = |k: int|
                kinds(rules[k].delta_input) is Some && kinds(rules[k].right_input) is Some
                    && ids.contains(rules[k].target);
            let derived = |k: int|
                exists|j: int| 0 <= j < rules.len() && (#[trigger] rules[j]).target == ids[k];
            let all_fine = forall|k: int| 0 <= k < ids.len() ==> kinds(#[trigger] ids[k])
                == Some(true);
            let all_sound = forall|k: int|
                0 <= k < rules.len() ==> kinds((#[trigger] rules[k]).delta_input) is Some && kinds(
                    rules[k].right_input,
                ) is Some && ids.contains(rules[k].target);
            &&& ids.len() == 0 ==> found == Some(GenericErrorView::EmptyScc)
            &&& 0 <= i < ids.len() && !fine(i) && (forall|k: int|
                0 <= k < i ==> kinds(#[trigger] ids[k]) == Some(true)) ==> found == Some(
                GenericErrorView::Store(
                    if kinds(ids[i]) is None {
                        RelationStoreError::Missing(ids[i])
                    } else {
                        RelationStoreError::NotRecursive(ids[i])
                    },
                ),
            )
            &&& ids.len() > 0 && all_fine && 0 <= i < rules.len() && !sound(i) && (forall|k: int|
                0 <= k < i ==> kinds((#[trigger] rules[k]).delta_input) is Some && kinds(
                    rules[k].right_input,
                ) is Some && ids.contains(rules[k].target)) ==> found == Some(
                if kinds(rules[i].delta_input) is None {
                    GenericErrorView::Store(RelationStoreError::Missing(rules[i].delta_input))
                } else if kinds(rules[i].right_input) is None {
                    GenericErrorView::Store(RelationStoreError::Missing(rules[i].right_input))
                } else {
                    GenericErrorView::TargetOutsideScc(rules[i].target)
                },
            )
            &&& ids.len() > 0 && all_fine && all_sound && 0 <= i < ids.len() && !derived(i) && (
            forall|k: int| 0 <= k < i ==> rounds::has_rule(rules, #[trigger] ids[k])) ==> found
                == Some(GenericErrorView::MissingRuleTarget(ids[i]))
        }),
{
    lemma_first_problem(kinds, ids);
    lemma_first_rule_problem(kinds, ids, rules, rules.len() as int);
    lemma_first_missing(rules, ids);
    if 0 <= i < ids.len() {
        assert(rounds::has_rule(rules, ids[i]) <==> exists|j: int|
            0 <= j < rules.len() && (#[trigger] rules[j]).target == ids[i]);
    }
}

proof fn lemma_first_problem(kinds: RelationKinds, ids: Seq<RelationId>)
    ensures
        executor::first_problem(kinds, ids) is None <==> forall|k: int|
            0 <= k < ids.len() ==> kinds(#[trigger] ids[k]) == Some(true),
        forall|i: int|
            0 <= i < ids.len() && kinds(#[trigger] ids[i]) != Some(true) && (forall|k: int|
                0 <= k < i ==> kinds(#[trigger] ids[k]) == Some(true))
                ==> executor::first_problem(kinds, ids) == Some(
                if kinds(ids[i]) is None {
                    RelationStoreError::Missing(ids[i])
                } else {
                    RelationStoreError::NotRecursive(ids[i])
                },
            ),
    decreases ids.len(),
{
    if ids.len() > 0 {
        let rest = ids.drop_last();
        lemma_first_problem(kinds, rest);
        assert forall|k: int| 0 <= k < rest.len() implies #[trigger] ids[k] == rest[k] by {}
        if forall|k: int| 0 <= k < ids.len() ==> kinds(#[trigger] ids[k]) == Some(true) {
            assert forall|k: int| 0 <= k < rest.len() implies kinds(#[trigger] rest[k]) == Some(
                true,
            ) by {
                assert(ids[k] == rest[k]);
            }
            assert(kinds(ids[ids.len() - 1]) == Some(true));
        }
        if executor::first_problem(kinds, ids) is None {
            assert forall|k: int| 0 <= k < ids.len() implies kinds(#[trigger] ids[k]) == Some(
                true,
            ) by {
                if k < rest.len() {
                    assert(kinds(rest[k]) == Some(true));
                }
            }
        }
        assert forall|i: int|
            0 <= i < ids.len() && kinds(#[trigger] ids[i]) != Some(true) && (forall|k: int|
                0 <= k < i ==> kinds(#[trigger] ids[k]) == Some(
                    true,
                )) implies executor::first_problem(kinds, ids) == Some(
            if kinds(ids[i]) is None {
                RelationStoreError::Missing(ids[i])
            } else {
                RelationStoreError::NotRecursive(ids[i])
            },
        ) by {
            assert forall|k: int| 0 <= k < i implies kinds(#[trigger] rest[k]) == Some(true) by {
                assert(kinds(ids[k]) == Some(true));
            }
            if i < rest.len() {
                assert(kinds(rest[i]) != Some(true));
            }
        }
    }
}

spec fn is_sound(
    kinds: RelationKinds,
    ids: Seq<RelationId>,
    rule: RecursiveRulePlan,
) -> bool {
    kinds(rule.delta_input) is Some && kinds(rule.right_input) is Some && ids.contains(rule.target)
}

proof fn lemma_first_rule_problem(
    kinds: RelationKinds,
    ids: Seq<RelationId>,
    rules: Seq<RecursiveRulePlan>,
    count: int,
)
    requires
        0 <= count <= rules.len(),
    ensures
        executor::first_rule_problem(kinds, ids, rules, count) is None <==> forall|k: int|
            0 <= k < count ==> is_sound(kinds, ids, #[trigger] rules[k]),
        forall|i: int|
            0 <= i < count && !is_sound(kinds, ids, #[trigger] rules[i]) && (forall|k: int|
                0 <= k < i ==> is_sound(kinds, ids, #[trigger] rules[k]))
                ==> executor::first_rule_problem(kinds, ids, rules, count)
                == executor::rule_problem(kinds, ids, rules, i),
    decreases count,
{
    if count > 0 {
        lemma_first_rule_problem(kinds, ids, rules, count - 1);
    }
}

proof fn lemma_first_missing(rules: Seq<RecursiveRulePlan>, ids: Seq<RelationId>)
    ensures
        executor::first_missing(rules, ids) is None <==> forall|k: int|
            0 <= k < ids.len() ==> rounds::has_rule(rules, #[trigger] ids[k]),
        forall|i: int|
            0 <= i < ids.len() && !rounds::has_rule(rules, #[trigger] ids[i]) && (forall|k: int|
                0 <= k < i ==> rounds::has_rule(rules, #[trigger] ids[k]))
                ==> executor::first_missing(rules, ids) == Some(ids[i]),
    decreases ids.len(),
{
    if ids.len() > 0 {
        let rest = ids.drop_last();
        lemma_first_missing(rules, rest);
        if forall|k: int| 0 <= k < ids.len() ==> rounds::has_rule(rules, #[trigger] ids[k]) {
            assert forall|k: int| 0 <= k < rest.len() implies rounds::has_rule(
                rules,
                #[trigger] rest[k],
            ) by {
                assert(rounds::has_rule(rules, ids[k]));
            }
            assert(rounds::has_rule(rules, ids[ids.len() - 1]));
        }
        if executor::first_missing(rules, ids) is None {
            assert forall|k: int| 0 <= k < ids.len() implies rounds::has_rule(
                rules,
                #[trigger] ids[k],
            ) by {
                if k < rest.len() {
                    assert(rounds::has_rule(rules, rest[k]));
                }
            }
        }
        assert forall|i: int|
            0 <= i < ids.len() && !rounds::has_rule(rules, #[trigger] ids[i]) && (forall|k: int|
                0 <= k < i ==> rounds::has_rule(
                    rules,
                    #[trigger] ids[k],
                )) implies executor::first_missing(rules, ids) == Some(ids[i]) by {
            assert forall|k: int| 0 <= k < i implies rounds::has_rule(
                rules,
                #[trigger] rest[k],
            ) by {
                assert(rounds::has_rule(rules, ids[k]));
            }
            if i < rest.len() {
                assert(!rounds::has_rule(rules, rest[i]));
            }
        }
    }
}

/// Who wrote what an operator wrote: the device where it ran there.
pub open spec fn writer(place: Placement) -> InputProvenance {
    if place == Placement::Gpu {
        InputProvenance::Gpu
    } else {
        InputProvenance::Cpu
    }
}

/// Who wrote two inputs: the device only where it wrote both.
pub open spec fn writers(a: InputProvenance, b: InputProvenance) -> InputProvenance {
    if a == InputProvenance::Gpu && b == InputProvenance::Gpu {
        InputProvenance::Gpu
    } else {
        InputProvenance::Cpu
    }
}

/// A round joins, removes repetitions, subtracts what is known and unites, in this order. Each
/// operator is placed by the rows that the one before it wrote, and by who wrote them.
pub proof fn law_round_steps(
    start: RoundStart,
    joined: usize,
    unique: usize,
    new: usize,
    all: usize,
) -> (places: (Placement, Placement, Placement, Placement))
    ensures
        steps::round_action(start, Seq::empty()) == (RoundAction::Run {
            operator: RoundOperator::Join,
            placement: places.0,
        }),
        steps::round_action(start, seq![joined]) == (RoundAction::Run {
            operator: RoundOperator::Distinct,
            placement: places.1,
        }),
        steps::round_action(start, seq![joined, unique]) == (RoundAction::Run {
            operator: RoundOperator::AntiJoin,
            placement: places.2,
        }),
        steps::round_action(start, seq![joined, unique, new]) == (RoundAction::Run {
            operator: RoundOperator::Union,
            placement: places.3,
        }),
        steps::round_action(start, seq![joined, unique, new, all]) matches RoundAction::Finished(
            done,
        ) && done.candidate_rows == joined && done.distinct_candidate_rows == unique
            && done.newt_rows == new && done.full_rows == all && done.full_provenance == writer(
            places.3,
        ) && done.placements.join == places.0 && done.placements.distinct == places.1
            && done.placements.anti_join == places.2 && done.placements.union == places.3,
        runs_on(
            places.0,
            start.delta_rows as int,
            start.gpu_available,
            start.policies.join.gpu_min_delta_rows,
            start.policies.join.gpu_unavailable_parallel_min_rows,
        ),
        runs_on(
            places.1,
            joined as int,
            start.gpu_available,
            if writer(places.0) == InputProvenance::Cpu {
                start.policies.distinct.cpu_produced_gpu_min_rows
            } else {
                start.policies.distinct.gpu_produced_gpu_min_rows
            },
            start.policies.distinct.gpu_unavailable_parallel_min_rows,
        ),
        runs_on(
            places.2,
            unique as int,
            start.gpu_available,
            if writers(writer(places.1), start.full_provenance) == InputProvenance::Cpu {
                start.policies.anti_join.cpu_produced_gpu_min_rows
            } else {
                start.policies.anti_join.gpu_produced_gpu_min_rows
            },
            if writers(writer(places.1), start.full_provenance) == InputProvenance::Cpu {
                start.policies.anti_join.cpu_produced_parallel_min_rows
            } else {
                start.policies.anti_join.gpu_produced_parallel_min_rows
            },
        ),
        runs_on(
            places.3,
            start.full_rows + new,
            start.gpu_available,
            if writers(start.full_provenance, writer(places.2)) == InputProvenance::Cpu {
                start.policies.union.cpu_produced_gpu_min_rows
            } else {
                start.policies.union.gpu_produced_gpu_min_rows
            },
            start.policies.union.gpu_unavailable_parallel_min_rows,
        ),
{
    (
        steps::join_place(start),
        steps::distinct_place(start, joined),
        steps::anti_join_place(start, joined, unique),
        steps::union_place(start, joined, unique, new),
    )
}

/// The relations that rules derive come in the order in which rules first name them, and the rules
/// for each in their order.
pub proof fn law_targets(rules: Seq<RecursiveRulePlan>, rule: RecursiveRulePlan, id: RelationId)
    ensures
        rounds::targets_of(Seq::empty()).len() == 0,
        rounds::targets_of(rules).contains(rule.target) ==> rounds::targets_of(rules.push(rule))
            == rounds::targets_of(rules),
        !rounds::targets_of(rules).contains(rule.target) ==> rounds::targets_of(rules.push(rule))
            == rounds::targets_of(rules).push(rule.target),
        rounds::rules_for(Seq::empty(), id).len() == 0,
        rule.target == id ==> rounds::rules_for(rules.push(rule), id) == rounds::rules_for(
            rules,
            id,
        ).push(rule),
        rule.target != id ==> rounds::rules_for(rules.push(rule), id) == rounds::rules_for(
            rules,
            id,
        ),
{
    assert(rules.push(rule).drop_last() =~= rules);
}

/// Where the operators of a round run: relation by relation and rule by rule. Joining goes by the
/// newest rows that the rule reads and removing repetitions by the rows that it joins. Subtracting
/// goes by what all rules of the relation make together, and uniting by what it knows and what is
/// new.
pub proof fn law_round_placements(
    policies: IterationPolicies,
    rules: Seq<RecursiveRulePlan>,
    relations: Relations,
    t: int,
    k: int,
)
    requires
        0 <= t < rounds::targets_of(rules).len(),
        0 <= k < rounds::rules_for(rules, rounds::targets_of(rules)[t]).len(),
    ensures
        executor::round_placements(policies, rules, relations) == executor::first_placements(
            policies,
            rules,
            relations,
            rounds::targets_of(rules).len() as int,
        ),
        executor::first_placements(policies, rules, relations, 0).len() == 0,
        ({
            let id = rounds::targets_of(rules)[t];
            let own = rounds::rules_for(rules, id);
            let before = executor::first_placements(policies, rules, relations, t);
            let after = executor::first_placements(policies, rules, relations, t + 1);
            let (found, place) = after[before.len() + k];
            let newest = relations(own[k].delta_input).delta.len();
            let joined = rounds::joined_pairs(own[k], relations).len();
            let made = rounds::distinct_list(rounds::contributed(own, relations)).len();
            let known = relations(id).full.len();
            let new = rounds::new_pairs(rules, id, relations).len();
            &&& after.len() == before.len() + own.len()
            &&& after.take(before.len() as int) == before
            &&& found == id
            &&& newest <= usize::MAX ==> runs_on(
                place.join,
                newest as int,
                false,
                policies.join.gpu_min_delta_rows,
                policies.join.gpu_unavailable_parallel_min_rows,
            )
            &&& joined <= usize::MAX ==> runs_on(
                place.distinct,
                joined as int,
                false,
                policies.distinct.cpu_produced_gpu_min_rows,
                policies.distinct.gpu_unavailable_parallel_min_rows,
            )
            &&& made <= usize::MAX ==> runs_on(
                place.anti_join,
                made as int,
                false,
                policies.anti_join.cpu_produced_gpu_min_rows,
                policies.anti_join.cpu_produced_parallel_min_rows,
            )
            &&& known <= usize::MAX && new <= usize::MAX ==> runs_on(
                place.union,
                (known + new) as int,
                false,
                policies.union.cpu_produced_gpu_min_rows,
                policies.union.gpu_unavailable_parallel_min_rows,
            )
        }),
{
    let before = executor::first_placements(policies, rules, relations, t);
    let after = executor::first_placements(policies, rules, relations, t + 1);
    assert(after.take(before.len() as int) =~= before);
}

/// A summary lists the relations of its component in order, each with the number of its pairs, and
/// says by how many pairs they grew, as far as that can be counted.
pub proof fn law_binary_summaries(
    scc: RecursiveSccPlan,
    policies: IterationPolicies,
    before: Relations,
    summary: SccSummary,
)
    requires
        execution_binary::is_summary(scc, policies, before, summary),
        forall|t: int|
            0 <= t < rounds::targets_of(scc.rules@).len() ==> pairs::pairs_ascending(
                before(#[trigger] rounds::targets_of(scc.rules@)[t]).full,
            ),
    ensures
        ({
            let after = rounds::after_rounds(scc.rules@, before, summary.iterations as nat);
            let ids = rounds::targets_of(scc.rules@);
            let grown = pair_total(ids, after, ids.len() as int) - pair_total(
                ids,
                before,
                ids.len() as int,
            );
            &&& summary.relation_rows@.len() == scc.relations@.len()
            &&& forall|k: int|
                0 <= k < scc.relations@.len() ==> (#[trigger] summary.relation_rows@[k]).0
                    == scc.relations@[k] && summary.relation_rows@[k].1 == after(
                    scc.relations@[k],
                ).full.len()
            &&& grown <= usize::MAX ==> summary.total_new_rows == grown
            &&& grown > usize::MAX ==> summary.total_new_rows == usize::MAX
            &&& summary.iterations == 0 ==> summary.last_placements@.len() == 0
            &&& summary.iterations > 0 ==> summary.last_placements@ == executor::round_placements(
                policies,
                scc.rules@,
                rounds::after_rounds(scc.rules@, before, (summary.iterations - 1) as nat),
            )
        }),
{
    law_new_pairs_are_counted(scc.rules@, before, summary.iterations as nat);
}

/// A component is settled when no relation of it has newest pairs, and goes on for as many rounds as
/// start with some.
pub proof fn law_settling(
    ids: Seq<RelationId>,
    rules: Seq<RecursiveRulePlan>,
    relations: Relations,
    count: nat,
)
    ensures
        rounds::is_settled(ids, relations) <==> forall|i: int|
            0 <= i < ids.len() ==> relations(#[trigger] ids[i]).delta.len() == 0,
        executor::goes_on(ids, rules, relations, count) <==> forall|n: nat|
            n < count ==> !rounds::is_settled(
                ids,
                #[trigger] rounds::after_rounds(rules, relations, n),
            ),
{
    reveal(executor::goes_on);
}

/// The newest pairs of relations are counted relation by relation.
pub proof fn law_newest_pairs(relations: Relations, ids: Seq<RelationId>, count: int)
    requires
        0 <= count < ids.len(),
    ensures
        executor::pair_count(relations, ids, 0) == 0,
        executor::pair_count(relations, ids, count + 1) == executor::pair_count(
            relations,
            ids,
            count,
        ) + relations(ids[count]).delta.len(),
{
}

/// Rounds follow one another: each starts with what the one before it left.
pub proof fn law_rounds_follow(rules: Seq<RecursiveRulePlan>, start: Relations, count: nat)
    ensures
        rounds::after_rounds(rules, start, 0) == start,
        rounds::after_rounds(rules, start, count + 1) == rounds::after_round(
            rules,
            rounds::after_rounds(rules, start, count),
        ),
{
}

/// The closure of an edge relation ends with the first round that finds nothing.
pub proof fn law_last_round(
    delta: RelationView<'_>,
    edge: RelationView<'_>,
    full: RelationView<'_>,
    count: nat,
)
    ensures
        recursion::is_last_round(delta, edge, full, count) <==> {
            &&& count >= 1
            &&& recursion::path_rounds(delta, edge, full, count).delta.len() == 0
            &&& forall|n: nat|
                1 <= n < count ==> (#[trigger] recursion::path_rounds(
                    delta,
                    edge,
                    full,
                    n,
                )).delta.len() > 0
        },
{
}

} // verus!
