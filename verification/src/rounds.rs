//! Rounds of recursive rules over binary relations, and where they lead.
use vstd::prelude::*;

use crate::index;
use crate::pairs;
use crate::pairs::Pair;
use crate::recursion;
use crate::relational::{
    BinaryEqualityJoin, JoinInput, JoinProjection, RecursiveRulePlan, RelationId,
};

verus! {

/// A column of a pair.
pub open spec fn column_of(pair: Pair, column: u32) -> u32 {
    if column == 0 {
        pair.0
    } else {
        pair.1
    }
}

/// A column of some pairs.
pub open spec fn column_list(rows: Seq<Pair>, column: u32) -> Seq<u32> {
    Seq::new(rows.len(), |i: int| column_of(rows[i], column))
}

/// What a projection takes from two joined pairs.
pub open spec fn pair_value(projection: JoinProjection, left: Pair, right: Pair) -> u32 {
    match projection.input {
        JoinInput::Left => column_of(left, projection.column),
        JoinInput::Right => column_of(right, projection.column),
    }
}

/// The pair that two joined pairs yield.
pub open spec fn joined_pair(plan: BinaryEqualityJoin, left: Pair, right: Pair) -> Pair {
    (pair_value(plan.output@[0], left, right), pair_value(plan.output@[1], left, right))
}

/// What one left pair yields, in the order of the right ones.
pub open spec fn pair_row_join(
    plan: BinaryEqualityJoin,
    left: Seq<Pair>,
    right: Seq<Pair>,
    i: int,
) -> Seq<Pair> {
    let rows = index::matching_rows(
        column_list(right, plan.right_key),
        column_of(left[i], plan.left_key),
    );
    Seq::new(rows.len(), |j: int| joined_pair(plan, left[i], right[rows[j] as int]))
}

/// What the first left pairs yield.
pub open spec fn pair_join(
    plan: BinaryEqualityJoin,
    left: Seq<Pair>,
    right: Seq<Pair>,
    count: int,
) -> Seq<Pair>
    decreases count,
{
    if count <= 0 {
        Seq::empty()
    } else {
        pair_join(plan, left, right, count - 1) + pair_row_join(plan, left, right, count - 1)
    }
}

/// Whether two pairs join to a third.
pub open spec fn joins_to(plan: BinaryEqualityJoin, left: Pair, right: Pair, result: Pair) -> bool {
    column_of(left, plan.left_key) == column_of(right, plan.right_key) && joined_pair(
        plan,
        left,
        right,
    ) == result
}

/// Whether some pairs of two lists join to a third.
pub open spec fn some_join(
    plan: BinaryEqualityJoin,
    left: Seq<Pair>,
    right: Seq<Pair>,
    result: Pair,
) -> bool {
    exists|a: Pair, b: Pair| #[trigger]
        joins_to(plan, a, b, result) && left.contains(a) && right.contains(b)
}

/// A join holds what pairs with equal keys join to, and nothing else.
pub proof fn law_join_is_equality_join(
    plan: BinaryEqualityJoin,
    left: Seq<Pair>,
    right: Seq<Pair>,
    result: Pair,
)
    requires
        right.len() <= u32::MAX,
    ensures
        pair_join(plan, left, right, left.len() as int).contains(result) <==> some_join(
            plan,
            left,
            right,
            result,
        ),
{
    lemma_pair_join(plan, left, right, left.len() as int, result);
    if some_join(plan, left, right, result) {
        let (a, b) = choose|a: Pair, b: Pair| #[trigger]
            joins_to(plan, a, b, result) && left.contains(a) && right.contains(b);
        let i = choose|i: int| 0 <= i < left.len() && left[i] == a;
        assert(joins_to(plan, left[i], b, result));
    }
    if pair_join(plan, left, right, left.len() as int).contains(result) {
        let (i, b) = choose|i: int, b: Pair|
            0 <= i < left.len() && right.contains(b) && #[trigger] joins_to(
                plan,
                left[i],
                b,
                result,
            );
        assert(left.contains(left[i]));
    }
}

proof fn lemma_pair_join(
    plan: BinaryEqualityJoin,
    left: Seq<Pair>,
    right: Seq<Pair>,
    count: int,
    result: Pair,
)
    requires
        0 <= count <= left.len(),
        right.len() <= u32::MAX,
    ensures
        pair_join(plan, left, right, count).contains(result) <==> exists|i: int, b: Pair|
            0 <= i < count && right.contains(b) && #[trigger] joins_to(plan, left[i], b, result),
    decreases count,
{
    let all = pair_join(plan, left, right, count);
    if count > 0 {
        lemma_pair_join(plan, left, right, count - 1, result);
        let earlier = pair_join(plan, left, right, count - 1);
        let last = pair_row_join(plan, left, right, count - 1);
        let keys = column_list(right, plan.right_key);
        let key = column_of(left[count - 1], plan.left_key);
        let rows = index::matching_rows(keys, key);
        index::lemma_matching_rows(keys, key);
        pairs::lemma_sum_contains(earlier, last, result);
        if last.contains(result) {
            let j = choose|j: int| 0 <= j < last.len() && last[j] == result;
            assert(rows.contains(rows[j]));
            let b = right[rows[j] as int];
            assert(keys[rows[j] as int] == key);
            assert(right.contains(b));
            assert(joins_to(plan, left[count - 1], b, result));
        }
        if exists|i: int, b: Pair|
            0 <= i < count && right.contains(b) && #[trigger] joins_to(plan, left[i], b, result) {
            let (i, b) = choose|i: int, b: Pair|
                0 <= i < count && right.contains(b) && #[trigger] joins_to(
                    plan,
                    left[i],
                    b,
                    result,
                );
            if i == count - 1 {
                let k = choose|k: int| 0 <= k < right.len() && right[k] == b;
                assert(keys[k] == key);
                assert(rows.contains(k as u32));
                let j = choose|j: int| 0 <= j < rows.len() && rows[j] == k as u32;
                assert(last[j] == result);
            }
        }
    } else {
        assert(!all.contains(result));
    }
}

/// The pairs of a list once each, in ascending order.
pub open spec fn distinct_list(rows: Seq<Pair>) -> Seq<Pair> {
    choose|list: Seq<Pair>| #[trigger] pairs::is_distinct(list, rows)
}

/// Every list has a distinct one, and only one.
pub proof fn law_distinct_list(rows: Seq<Pair>)
    ensures
        pairs::is_distinct(distinct_list(rows), rows),
        forall|list: Seq<Pair>| #[trigger]
            pairs::is_distinct(list, rows) ==> list == distinct_list(rows),
    decreases rows.len(),
{
    let witness = lemma_distinct_exists(rows);
    assert(pairs::is_distinct(witness, rows));
    assert forall|list: Seq<Pair>| #[trigger] pairs::is_distinct(list, rows) implies list
        == distinct_list(rows) by {
        let found = distinct_list(rows);
        assert forall|p: Pair| list.contains(p) <==> found.contains(p) by {
            assert(list.contains(p) <==> rows.contains(p));
            assert(found.contains(p) <==> rows.contains(p));
        }
        pairs::law_ascending_pairs_unique(list, found);
    }
}

proof fn lemma_distinct_exists(rows: Seq<Pair>) -> (list: Seq<Pair>)
    ensures
        pairs::is_distinct(list, rows),
    decreases rows.len(),
{
    if rows.len() == 0 {
        rows
    } else {
        let earlier = lemma_distinct_exists(rows.drop_last());
        let pair = rows.last();
        assert(rows =~= rows.drop_last().push(pair));
        if earlier.contains(pair) {
            assert forall|p: Pair| earlier.contains(p) <==> rows.contains(p) by {
                vstd::seq_lib::lemma_seq_contains_after_push(rows.drop_last(), pair, p);
                assert(earlier.contains(p) <==> rows.drop_last().contains(p));
            }
            earlier
        } else {
            let place = lemma_place(earlier, pair, earlier.len() as int);
            let list = earlier.insert(place, pair);
            assert forall|i: int, j: int|
                #![trigger list[i], list[j]]
                0 <= i < j < list.len() implies pairs::pair_less(list[i], list[j]) by {
                if j == place {
                    assert(pairs::pair_less(earlier[i], pair));
                } else if i == place {
                    assert(!pairs::pair_less(earlier[j - 1], pair));
                    assert(earlier.contains(earlier[j - 1]));
                } else {
                    let a = if i < place {
                        i
                    } else {
                        i - 1
                    };
                    let b = if j < place {
                        j
                    } else {
                        j - 1
                    };
                    assert(pairs::pair_less(earlier[a], earlier[b]));
                }
            }
            assert forall|p: Pair| list.contains(p) <==> rows.contains(p) by {
                vstd::seq_lib::lemma_seq_contains_after_push(rows.drop_last(), pair, p);
                assert(earlier.contains(p) <==> rows.drop_last().contains(p));
                if list.contains(p) {
                    let i = choose|i: int| 0 <= i < list.len() && list[i] == p;
                    if i < place {
                        assert(earlier[i] == p);
                    } else if i > place {
                        assert(earlier[i - 1] == p);
                    }
                }
                if earlier.contains(p) {
                    let i = choose|i: int| 0 <= i < earlier.len() && earlier[i] == p;
                    if i < place {
                        assert(list[i] == p);
                    } else {
                        assert(list[i + 1] == p);
                    }
                }
                assert(list[place] == pair);
            }
            list
        }
    }
}

/// Where a pair belongs in an ascending list.
proof fn lemma_place(list: Seq<Pair>, pair: Pair, count: int) -> (place: int)
    requires
        pairs::pairs_ascending(list),
        0 <= count <= list.len(),
        forall|i: int| count <= i < list.len() ==> !pairs::pair_less(#[trigger] list[i], pair),
    ensures
        0 <= place <= list.len(),
        forall|i: int| 0 <= i < place ==> pairs::pair_less(#[trigger] list[i], pair),
        forall|i: int| place <= i < list.len() ==> !pairs::pair_less(#[trigger] list[i], pair),
    decreases count,
{
    if count == 0 {
        0
    } else if pairs::pair_less(list[count - 1], pair) {
        assert forall|i: int| 0 <= i < count implies pairs::pair_less(
            #[trigger] list[i],
            pair,
        ) by {
            if i < count - 1 {
                assert(pairs::pair_less(list[i], list[count - 1]));
            }
        }
        count
    } else {
        lemma_place(list, pair, count - 1)
    }
}

/// What is left of a list when another is taken away holds exactly the rest, in order.
pub proof fn lemma_difference(left: Seq<Pair>, right: Seq<Pair>, count: int)
    requires
        pairs::pairs_ascending(left),
        0 <= count <= left.len(),
    ensures
        ({
            let rest = pairs::difference(left, right, 0, count);
            &&& pairs::pairs_ascending(rest)
            &&& forall|p: Pair| #[trigger]
                rest.contains(p) <==> left.take(count).contains(p) && !right.contains(p)
        }),
    decreases count,
{
    let rest = pairs::difference(left, right, 0, count);
    if count > 0 {
        lemma_difference(left, right, count - 1);
        let earlier = pairs::difference(left, right, 0, count - 1);
        let pair = left[count - 1];
        assert(left.take(count) =~= left.take(count - 1).push(pair));
        assert forall|p: Pair| #[trigger] rest.contains(p) <==> left.take(count).contains(p)
            && !right.contains(p) by {
            assert(earlier.contains(p) <==> left.take(count - 1).contains(p) && !right.contains(
                p,
            ));
            vstd::seq_lib::lemma_seq_contains_after_push(left.take(count - 1), pair, p);
            vstd::seq_lib::lemma_seq_contains_after_push(earlier, pair, p);
        }
        assert forall|i: int, j: int|
            #![trigger rest[i], rest[j]]
            0 <= i < j < rest.len() implies pairs::pair_less(rest[i], rest[j]) by {
            if j == earlier.len() {
                assert(earlier.contains(earlier[i]));
                let taken = left.take(count - 1);
                let k = choose|k: int| 0 <= k < taken.len() && taken[k] == earlier[i];
                assert(pairs::pair_less(left[k], left[count - 1]));
            }
        }
    } else {
        assert(left.take(0) =~= Seq::<Pair>::empty());
    }
}

/// The pairs that a rule adds to a relation in one round.
pub open spec fn rule_new(
    plan: BinaryEqualityJoin,
    delta: Seq<Pair>,
    right: Seq<Pair>,
    full: Seq<Pair>,
) -> Seq<Pair> {
    let candidates = distinct_list(pair_join(plan, delta, right, delta.len() as int));
    pairs::difference(candidates, full, 0, candidates.len() as int)
}

/// Subtracting what is known leaves pairs that are not known; uniting them with what is known gives
/// back everything, each pair once.
pub proof fn law_difference_and_union(
    known: Seq<Pair>,
    candidates: Seq<Pair>,
    all: Seq<Pair>,
)
    requires
        pairs::pairs_ascending(known),
        pairs::pairs_ascending(candidates),
        pairs::is_union(
            all,
            known,
            pairs::difference(candidates, known, 0, candidates.len() as int),
        ),
    ensures
        pairs::pairs_ascending(
            pairs::difference(candidates, known, 0, candidates.len() as int),
        ),
        forall|p: Pair| #[trigger]
            pairs::difference(candidates, known, 0, candidates.len() as int).contains(p)
                <==> candidates.contains(p) && !known.contains(p),
        pairs::is_union(all, known, candidates),
        all.len() == known.len() + pairs::difference(
            candidates,
            known,
            0,
            candidates.len() as int,
        ).len(),
{
    let new = pairs::difference(candidates, known, 0, candidates.len() as int);
    lemma_difference(candidates, known, candidates.len() as int);
    assert(candidates.take(candidates.len() as int) =~= candidates);
    assert forall|p: Pair|
        #![trigger all.contains(p)]
        #![trigger (known + candidates).contains(p)]
        all.contains(p) <==> (known + candidates).contains(p) by {
        assert(all.contains(p) <==> (known + new).contains(p));
        pairs::lemma_sum_contains(known, new, p);
        pairs::lemma_sum_contains(known, candidates, p);
    }
    let sum = known + new;
    assert(sum.no_duplicates()) by {
        assert forall|i: int, j: int|
            0 <= i < sum.len() && 0 <= j < sum.len() && i != j implies sum[i] != sum[j] by {
            lemma_apart(known, new, i, j);
        }
    }
    assert(all.no_duplicates()) by {
        assert forall|i: int, j: int|
            0 <= i < all.len() && 0 <= j < all.len() && i != j implies all[i] != all[j] by {
            if i < j {
                assert(pairs::pair_less(all[i], all[j]));
            } else {
                assert(pairs::pair_less(all[j], all[i]));
            }
        }
    }
    all.unique_seq_to_set();
    sum.unique_seq_to_set();
    assert(all.to_set() =~= sum.to_set()) by {
        assert forall|p: Pair| all.to_set().contains(p) <==> sum.to_set().contains(p) by {
            assert(all.contains(p) <==> sum.contains(p));
        }
    }
}

/// Ascending lists that share no pair repeat none together.
proof fn lemma_apart(first: Seq<Pair>, second: Seq<Pair>, i: int, j: int)
    requires
        pairs::pairs_ascending(first),
        pairs::pairs_ascending(second),
        forall|p: Pair| #[trigger] second.contains(p) ==> !first.contains(p),
        0 <= i < first.len() + second.len(),
        0 <= j < first.len() + second.len(),
        i != j,
    ensures
        (first + second)[i] != (first + second)[j],
{
    let n = first.len() as int;
    if i < n && j < n {
        if i < j {
            assert(pairs::pair_less(first[i], first[j]));
        } else {
            assert(pairs::pair_less(first[j], first[i]));
        }
    } else if i >= n && j >= n {
        if i < j {
            assert(pairs::pair_less(second[i - n], second[j - n]));
        } else {
            assert(pairs::pair_less(second[j - n], second[i - n]));
        }
    } else if i < n {
        assert(first.contains(first[i]));
        assert(second.contains(second[j - n]));
    } else {
        assert(first.contains(first[j]));
        assert(second.contains(second[i - n]));
    }
}

/// A relation with new pairs.
pub open spec fn with_new(full: Seq<Pair>, new: Seq<Pair>) -> Seq<Pair> {
    distinct_list(full + new)
}

/// What a round adds: pairs that follow from the newest ones and are not there yet.
pub proof fn law_rule_new(
    plan: BinaryEqualityJoin,
    delta: Seq<Pair>,
    right: Seq<Pair>,
    full: Seq<Pair>,
)
    requires
        right.len() <= u32::MAX,
    ensures
        pairs::pairs_ascending(rule_new(plan, delta, right, full)),
        forall|p: Pair| #[trigger]
            rule_new(plan, delta, right, full).contains(p) <==> some_join(plan, delta, right, p)
                && !full.contains(p),
        pairs::pairs_ascending(with_new(full, rule_new(plan, delta, right, full))),
        forall|p: Pair| #[trigger]
            with_new(full, rule_new(plan, delta, right, full)).contains(p) <==> full.contains(p)
                || some_join(plan, delta, right, p),
{
    let joined = pair_join(plan, delta, right, delta.len() as int);
    let candidates = distinct_list(joined);
    law_distinct_list(joined);
    lemma_difference(candidates, full, candidates.len() as int);
    assert(candidates.take(candidates.len() as int) =~= candidates);
    let new = rule_new(plan, delta, right, full);
    law_distinct_list(full + new);
    assert forall|p: Pair| #[trigger] new.contains(p) <==> some_join(plan, delta, right, p)
        && !full.contains(p) by {
        law_join_is_equality_join(plan, delta, right, p);
        assert(candidates.contains(p) <==> joined.contains(p));
    }
    assert forall|p: Pair| #[trigger] with_new(full, new).contains(p) <==> full.contains(p)
        || some_join(plan, delta, right, p) by {
        assert(with_new(full, new).contains(p) <==> (full + new).contains(p));
        pairs::lemma_sum_contains(full, new, p);
        assert(new.contains(p) <==> some_join(plan, delta, right, p) && !full.contains(p));
    }
}

/// What is known of a relation, and what was new in the last round.
#[verifier::ext_equal]
pub struct RelationPairs {
    pub full: Seq<Pair>,
    pub delta: Seq<Pair>,
}

/// One relation after rounds of a rule that reads its newest pairs and another relation.
pub open spec fn closure_rounds(
    plan: BinaryEqualityJoin,
    edge: Seq<Pair>,
    start: RelationPairs,
    count: nat,
) -> RelationPairs
    decreases count,
{
    if count == 0 {
        start
    } else {
        let before = closure_rounds(plan, edge, start, (count - 1) as nat);
        let new = rule_new(plan, before.delta, edge, before.full);
        RelationPairs { full: with_new(before.full, new), delta: new }
    }
}

/// Whether pairs are closed under a rule.
pub open spec fn is_closed(
    plan: BinaryEqualityJoin,
    edge: Seq<Pair>,
    known: spec_fn(Pair) -> bool,
) -> bool {
    forall|a: Pair, b: Pair, c: Pair| #[trigger]
        joins_to(plan, a, b, c) && known(a) && edge.contains(b) ==> known(c)
}

/// Whether every pair that follows from one that is not new is known.
pub open spec fn is_settled_but(
    plan: BinaryEqualityJoin,
    edge: Seq<Pair>,
    state: RelationPairs,
) -> bool {
    forall|a: Pair, b: Pair, c: Pair| #[trigger]
        joins_to(plan, a, b, c) && state.full.contains(a) && !state.delta.contains(a)
            && edge.contains(b) ==> state.full.contains(c)
}

proof fn lemma_closure_round(
    plan: BinaryEqualityJoin,
    edge: Seq<Pair>,
    start: RelationPairs,
    count: nat,
    known: spec_fn(Pair) -> bool,
)
    requires
        edge.len() <= u32::MAX,
        forall|p: Pair| start.delta.contains(p) ==> start.full.contains(p),
        is_settled_but(plan, edge, start),
        is_closed(plan, edge, known),
        forall|p: Pair| start.full.contains(p) ==> known(p),
    ensures
        ({
            let state = closure_rounds(plan, edge, start, count);
            &&& forall|p: Pair| #[trigger] start.full.contains(p) ==> state.full.contains(p)
            &&& forall|p: Pair| #[trigger] state.delta.contains(p) ==> state.full.contains(p)
            &&& forall|p: Pair| #[trigger] state.full.contains(p) ==> known(p)
            &&& is_settled_but(plan, edge, state)
        }),
    decreases count,
{
    if count > 0 {
        lemma_closure_round(plan, edge, start, (count - 1) as nat, known);
        let before = closure_rounds(plan, edge, start, (count - 1) as nat);
        let state = closure_rounds(plan, edge, start, count);
        law_rule_new(plan, before.delta, edge, before.full);
        assert forall|p: Pair| #[trigger] state.full.contains(p) implies known(p) by {
            if !before.full.contains(p) {
                assert(some_join(plan, before.delta, edge, p));
                let (a, b) = choose|a: Pair, b: Pair| #[trigger]
                    joins_to(plan, a, b, p) && before.delta.contains(a) && edge.contains(b);
                assert(before.full.contains(a));
            }
        }
        assert forall|a: Pair, b: Pair, c: Pair| #[trigger]
            joins_to(plan, a, b, c) && state.full.contains(a) && !state.delta.contains(a)
                && edge.contains(b) implies state.full.contains(c) by {
            assert(state.delta.contains(a) <==> some_join(plan, before.delta, edge, a)
                && !before.full.contains(a));
            assert(before.full.contains(a));
            if before.delta.contains(a) {
                assert(some_join(plan, before.delta, edge, c));
            } else {
                assert(before.full.contains(c));
            }
        }
    }
}

/// Rounds that end without new pairs have reached the least relation that holds the first pairs and
/// is closed under the rule: it holds them, it is closed, and every closed relation that holds
/// them holds it.
pub proof fn law_rounds_reach_closure(
    plan: BinaryEqualityJoin,
    edge: Seq<Pair>,
    start: RelationPairs,
    count: nat,
    known: spec_fn(Pair) -> bool,
)
    requires
        edge.len() <= u32::MAX,
        forall|p: Pair| start.delta.contains(p) ==> start.full.contains(p),
        is_settled_but(plan, edge, start),
        closure_rounds(plan, edge, start, count).delta.len() == 0,
    ensures
        ({
            let full = closure_rounds(plan, edge, start, count).full;
            &&& forall|p: Pair| #[trigger] start.full.contains(p) ==> full.contains(p)
            &&& is_closed(plan, edge, |p: Pair| full.contains(p))
            &&& is_closed(plan, edge, known) && (forall|p: Pair|
                start.full.contains(p) ==> known(p)) ==> forall|p: Pair| #[trigger]
                full.contains(p) ==> known(p)
        }),
{
    let state = closure_rounds(plan, edge, start, count);
    let all = |p: Pair| true;
    lemma_closure_round(plan, edge, start, count, all);
    let held = |p: Pair| state.full.contains(p);
    assert forall|a: Pair, b: Pair, c: Pair| #[trigger]
        joins_to(plan, a, b, c) && held(a) && edge.contains(b) implies held(c) by {
        assert(!state.delta.contains(a));
    }
    if is_closed(plan, edge, known) && (forall|p: Pair| start.full.contains(p) ==> known(p)) {
        lemma_closure_round(plan, edge, start, count, known);
    }
}

/// Whether a rule derives a relation.
pub open spec fn has_rule(rules: Seq<RecursiveRulePlan>, id: RelationId) -> bool {
    exists|j: int| 0 <= j < rules.len() && (#[trigger] rules[j]).target == id
}

/// The rules that derive a relation, in order.
pub open spec fn rules_for(rules: Seq<RecursiveRulePlan>, id: RelationId) -> Seq<RecursiveRulePlan>
    decreases rules.len(),
{
    if rules.len() == 0 {
        Seq::empty()
    } else {
        let earlier = rules_for(rules.drop_last(), id);
        if rules.last().target == id {
            earlier.push(rules.last())
        } else {
            earlier
        }
    }
}

/// The relations that rules derive, in the order in which rules first name them.
pub open spec fn targets_of(rules: Seq<RecursiveRulePlan>) -> Seq<RelationId>
    decreases rules.len(),
{
    if rules.len() == 0 {
        Seq::empty()
    } else {
        let earlier = targets_of(rules.drop_last());
        if earlier.contains(rules.last().target) {
            earlier
        } else {
            earlier.push(rules.last().target)
        }
    }
}

/// The rules of a relation are among all.
pub proof fn lemma_rules_for(rules: Seq<RecursiveRulePlan>, id: RelationId)
    ensures
        rules_for(rules, id).len() <= rules.len(),
        rules_for(rules, id).len() > 0 <==> has_rule(rules, id),
        forall|k: int|
            0 <= k < rules_for(rules, id).len() ==> (#[trigger] rules_for(rules, id)[k]).target
                == id && rules.contains(rules_for(rules, id)[k]),
        forall|rule: RecursiveRulePlan|
            rules.contains(rule) && rule.target == id ==> #[trigger] rules_for(
                rules,
                id,
            ).contains(rule),
    decreases rules.len(),
{
    if rules.len() > 0 {
        let shorter = rules.drop_last();
        let last = rules.last();
        lemma_rules_for(shorter, id);
        let earlier = rules_for(shorter, id);
        let own = rules_for(rules, id);
        assert(rules =~= shorter.push(last));
        assert forall|k: int| 0 <= k < own.len() implies (#[trigger] own[k]).target == id
            && rules.contains(own[k]) by {
            if k < earlier.len() {
                assert(own[k] == earlier[k]);
                let j = choose|j: int| 0 <= j < shorter.len() && shorter[j] == earlier[k];
                assert(rules[j] == own[k]);
            } else {
                assert(rules[rules.len() - 1] == own[k]);
            }
        }
        assert forall|rule: RecursiveRulePlan|
            rules.contains(rule) && rule.target == id implies #[trigger] own.contains(rule) by {
            let j = choose|j: int| 0 <= j < rules.len() && rules[j] == rule;
            if j < shorter.len() {
                assert(shorter[j] == rule);
                assert(shorter.contains(rule));
                assert(earlier.contains(rule));
                let k = choose|k: int| 0 <= k < earlier.len() && earlier[k] == rule;
                assert(own[k] == rule);
            } else {
                assert(own[earlier.len() as int] == rule);
            }
        }
        if own.len() > 0 {
            let rule = own[0];
            let j = choose|j: int| 0 <= j < rules.len() && rules[j] == rule;
            assert(rules[j].target == id);
        }
        if has_rule(rules, id) {
            let j = choose|j: int| 0 <= j < rules.len() && (#[trigger] rules[j]).target == id;
            assert(rules.contains(rules[j]));
            assert(own.contains(rules[j]));
        }
    }
}

/// Rules derive exactly the relations that are listed, each once.
pub proof fn lemma_targets_of(rules: Seq<RecursiveRulePlan>)
    ensures
        targets_of(rules).no_duplicates(),
        forall|id: RelationId| #[trigger] targets_of(rules).contains(id) <==> has_rule(rules, id),
    decreases rules.len(),
{
    if rules.len() > 0 {
        let shorter = rules.drop_last();
        let last = rules.last();
        lemma_targets_of(shorter);
        let earlier = targets_of(shorter);
        let own = targets_of(rules);
        assert forall|id: RelationId| #[trigger] own.contains(id) <==> has_rule(rules, id) by {
            if own.contains(id) {
                if earlier.contains(id) {
                    let j = choose|j: int|
                        0 <= j < shorter.len() && (#[trigger] shorter[j]).target == id;
                    assert(rules[j].target == id);
                } else {
                    assert(id == last.target);
                    assert(rules[rules.len() - 1].target == id);
                }
            }
            if has_rule(rules, id) {
                let j = choose|j: int| 0 <= j < rules.len() && (#[trigger] rules[j]).target == id;
                if j < shorter.len() {
                    assert(shorter[j].target == id);
                    assert(earlier.contains(id));
                    let k = choose|k: int| 0 <= k < earlier.len() && earlier[k] == id;
                    assert(own[k] == id);
                } else if !earlier.contains(id) {
                    assert(own[earlier.len() as int] == id);
                }
            }
        }
    }
}

/// The rows of a stored relation: the first two columns as pairs, of what is known and of what was
/// new in the last round, and, of a relation that no round changes, the columns behind them.
#[verifier::ext_equal]
pub struct RelationRows {
    pub full: Seq<Pair>,
    pub delta: Seq<Pair>,
    pub rest: Seq<Seq<u32>>,
}

/// The rows of each relation.
pub type Relations = spec_fn(RelationId) -> RelationRows;

/// A column of what is known of a relation.
pub open spec fn known_column(relation: RelationRows, column: u32) -> Seq<u32> {
    if column < 2 {
        column_list(relation.full, column)
    } else {
        relation.rest[column - 2]
    }
}

/// What a projection takes from a pair and a row of a relation.
pub open spec fn read_value(
    projection: JoinProjection,
    left: Pair,
    right: RelationRows,
    row: int,
) -> u32 {
    match projection.input {
        JoinInput::Left => column_of(left, projection.column),
        JoinInput::Right => known_column(right, projection.column)[row],
    }
}

/// What one pair yields with the rows of a relation, in their order.
pub open spec fn row_yield(
    plan: BinaryEqualityJoin,
    left: Seq<Pair>,
    right: RelationRows,
    i: int,
) -> Seq<Pair> {
    let rows = index::matching_rows(
        known_column(right, plan.right_key),
        column_of(left[i], plan.left_key),
    );
    Seq::new(
        rows.len(),
        |j: int|
            (
                read_value(plan.output@[0], left[i], right, rows[j] as int),
                read_value(plan.output@[1], left[i], right, rows[j] as int),
            ),
    )
}

/// What the first pairs yield with the rows of a relation.
pub open spec fn known_join(
    plan: BinaryEqualityJoin,
    left: Seq<Pair>,
    right: RelationRows,
    count: int,
) -> Seq<Pair>
    decreases count,
{
    if count <= 0 {
        Seq::empty()
    } else {
        known_join(plan, left, right, count - 1) + row_yield(plan, left, right, count - 1)
    }
}

/// A join that reads the first two columns joins pairs.
pub proof fn lemma_known_join(
    plan: BinaryEqualityJoin,
    left: Seq<Pair>,
    right: RelationRows,
    count: int,
)
    requires
        recursion::is_binary_join(plan),
        right.full.len() <= u32::MAX,
        0 <= count <= left.len(),
    ensures
        known_join(plan, left, right, count) == pair_join(plan, left, right.full, count),
    decreases count,
{
    if count > 0 {
        lemma_known_join(plan, left, right, count - 1);
        let keys = column_list(right.full, plan.right_key);
        let key = column_of(left[count - 1], plan.left_key);
        let rows = index::matching_rows(keys, key);
        index::lemma_matching_rows(keys, key);
        assert forall|j: int| 0 <= j < rows.len() implies (#[trigger] rows[j]) < right.full.len() by {
            assert(rows.contains(rows[j]));
        }
        assert(row_yield(plan, left, right, count - 1) =~= pair_row_join(
            plan,
            left,
            right.full,
            count - 1,
        ));
    }
}

/// The pair that two columns of a pair make.
pub open spec fn kept(columns: Seq<u32>, pair: Pair) -> Pair {
    (column_of(pair, columns[0]), column_of(pair, columns[1]))
}

/// The pairs that two columns of some pairs make.
pub open spec fn kept_all(columns: Seq<u32>, rows: Seq<Pair>) -> Seq<Pair> {
    Seq::new(rows.len(), |i: int| kept(columns, rows[i]))
}

/// What a rule joins in a round, in the order in which it finds it: the columns that it keeps of
/// what its join yields.
pub open spec fn joined_pairs(rule: RecursiveRulePlan, relations: Relations) -> Seq<Pair> {
    let delta = relations(rule.delta_input).delta;
    kept_all(
        rule.distinct.columns@,
        known_join(rule.join, delta, relations(rule.right_input), delta.len() as int),
    )
}

/// Whether a rule makes a third pair of two.
pub open spec fn yields(rule: RecursiveRulePlan, left: Pair, right: Pair, result: Pair) -> bool {
    column_of(left, rule.join.left_key) == column_of(right, rule.join.right_key) && kept(
        rule.distinct.columns@,
        joined_pair(rule.join, left, right),
    ) == result
}

/// Whether a rule makes a pair of some pairs of two lists.
pub open spec fn some_yield(
    rule: RecursiveRulePlan,
    left: Seq<Pair>,
    right: Seq<Pair>,
    result: Pair,
) -> bool {
    exists|a: Pair, b: Pair| #[trigger]
        yields(rule, a, b, result) && left.contains(a) && right.contains(b)
}

/// A rule joins the pairs that it makes of the newest pairs of one relation and the pairs of
/// another, and nothing else.
pub proof fn law_rule_joins(rule: RecursiveRulePlan, relations: Relations, result: Pair)
    requires
        recursion::is_binary_join(rule.join),
        relations(rule.right_input).full.len() <= u32::MAX,
    ensures
        joined_pairs(rule, relations).contains(result) <==> some_yield(
            rule,
            relations(rule.delta_input).delta,
            relations(rule.right_input).full,
            result,
        ),
{
    let left = relations(rule.delta_input).delta;
    let right = relations(rule.right_input).full;
    let columns = rule.distinct.columns@;
    let all = pair_join(rule.join, left, right, left.len() as int);
    let found = joined_pairs(rule, relations);
    lemma_known_join(rule.join, left, relations(rule.right_input), left.len() as int);
    if found.contains(result) {
        let i = choose|i: int| 0 <= i < found.len() && found[i] == result;
        assert(all.contains(all[i]));
        law_join_is_equality_join(rule.join, left, right, all[i]);
        let (a, b) = choose|a: Pair, b: Pair| #[trigger]
            joins_to(rule.join, a, b, all[i]) && left.contains(a) && right.contains(b);
        assert(yields(rule, a, b, result));
    }
    if some_yield(rule, left, right, result) {
        let (a, b) = choose|a: Pair, b: Pair| #[trigger]
            yields(rule, a, b, result) && left.contains(a) && right.contains(b);
        let joined = joined_pair(rule.join, a, b);
        assert(joins_to(rule.join, a, b, joined));
        law_join_is_equality_join(rule.join, left, right, joined);
        let i = choose|i: int| 0 <= i < all.len() && all[i] == joined;
        assert(found[i] == result);
    }
}

/// What rules join in a round, one after the other.
pub open spec fn contributed(rules: Seq<RecursiveRulePlan>, relations: Relations) -> Seq<Pair>
    decreases rules.len(),
{
    if rules.len() == 0 {
        Seq::empty()
    } else {
        contributed(rules.drop_last(), relations) + joined_pairs(rules.last(), relations)
    }
}

/// The pairs that a round adds to a relation: what its rules join, each pair once, without what is
/// known.
pub open spec fn new_pairs(
    rules: Seq<RecursiveRulePlan>,
    id: RelationId,
    relations: Relations,
) -> Seq<Pair> {
    let candidates = distinct_list(contributed(rules_for(rules, id), relations));
    pairs::difference(candidates, relations(id).full, 0, candidates.len() as int)
}

/// The relations after a round: every rule reads what was there before the round.
pub open spec fn after_round(rules: Seq<RecursiveRulePlan>, relations: Relations) -> Relations {
    |id: RelationId|
        if has_rule(rules, id) {
            let new = new_pairs(rules, id, relations);
            RelationRows {
                full: with_new(relations(id).full, new),
                delta: new,
                rest: Seq::empty(),
            }
        } else {
            relations(id)
        }
}

/// The relations after some rounds.
pub open spec fn after_rounds(
    rules: Seq<RecursiveRulePlan>,
    relations: Relations,
    count: nat,
) -> Relations
    decreases count,
{
    if count == 0 {
        relations
    } else {
        after_round(rules, after_rounds(rules, relations, (count - 1) as nat))
    }
}

/// Rules contribute what each of them joins.
pub proof fn lemma_contributed(
    rules: Seq<RecursiveRulePlan>,
    relations: Relations,
    p: Pair,
)
    ensures
        contributed(rules, relations).contains(p) <==> exists|k: int|
            0 <= k < rules.len() && joined_pairs(#[trigger] rules[k], relations).contains(p),
    decreases rules.len(),
{
    if rules.len() > 0 {
        let shorter = rules.drop_last();
        lemma_contributed(shorter, relations, p);
        pairs::lemma_sum_contains(
            contributed(shorter, relations),
            joined_pairs(rules.last(), relations),
            p,
        );
        if contributed(shorter, relations).contains(p) {
            let k = choose|k: int|
                0 <= k < shorter.len() && joined_pairs(#[trigger] shorter[k], relations).contains(
                    p,
                );
            assert(joined_pairs(rules[k], relations).contains(p));
        }
        if joined_pairs(rules.last(), relations).contains(p) {
            assert(joined_pairs(rules[rules.len() - 1], relations).contains(p));
        }
        if exists|k: int|
            0 <= k < rules.len() && joined_pairs(#[trigger] rules[k], relations).contains(p) {
            let k = choose|k: int|
                0 <= k < rules.len() && joined_pairs(#[trigger] rules[k], relations).contains(p);
            if k < shorter.len() {
                assert(joined_pairs(shorter[k], relations).contains(p));
            }
        }
    }
}

/// Whether a rule of a relation joins to a pair in a round.
pub open spec fn follows_by(
    rules: Seq<RecursiveRulePlan>,
    id: RelationId,
    relations: Relations,
    p: Pair,
) -> bool {
    exists|k: int|
        0 <= k < rules.len() && (#[trigger] rules[k]).target == id && some_yield(
            rules[k],
            relations(rules[k].delta_input).delta,
            relations(rules[k].right_input).full,
            p,
        )
}

/// What a round adds to a relation: pairs that follow by one of its rules and are not there yet,
/// each once, whichever rules they follow by.
pub proof fn law_target_new(
    rules: Seq<RecursiveRulePlan>,
    id: RelationId,
    relations: Relations,
)
    requires
        rights_numbered(rules, relations),
        forall|k: int|
            0 <= k < rules.len() ==> recursion::is_binary_join((#[trigger] rules[k]).join),
    ensures
        pairs::pairs_ascending(new_pairs(rules, id, relations)),
        forall|p: Pair| #[trigger]
            new_pairs(rules, id, relations).contains(p) <==> follows_by(rules, id, relations, p)
                && !relations(id).full.contains(p),
        pairs::pairs_ascending(with_new(relations(id).full, new_pairs(rules, id, relations))),
        forall|p: Pair| #[trigger]
            with_new(relations(id).full, new_pairs(rules, id, relations)).contains(p)
                <==> relations(id).full.contains(p) || follows_by(rules, id, relations, p),
{
    let own = rules_for(rules, id);
    let full = relations(id).full;
    let all = contributed(own, relations);
    let candidates = distinct_list(all);
    law_distinct_list(all);
    lemma_difference(candidates, full, candidates.len() as int);
    assert(candidates.take(candidates.len() as int) =~= candidates);
    let new = new_pairs(rules, id, relations);
    law_distinct_list(full + new);
    lemma_rules_for(rules, id);
    assert forall|p: Pair| #[trigger] new.contains(p) <==> follows_by(rules, id, relations, p)
        && !full.contains(p) by {
        assert(candidates.contains(p) <==> all.contains(p));
        lemma_contributed(own, relations, p);
        if all.contains(p) {
            let k = choose|k: int|
                0 <= k < own.len() && joined_pairs(#[trigger] own[k], relations).contains(p);
            let rule = own[k];
            let j = choose|j: int| 0 <= j < rules.len() && rules[j] == rule;
            law_rule_joins(rule, relations, p);
            assert(rules[j].target == id);
        }
        if follows_by(rules, id, relations, p) {
            let k = choose|k: int|
                0 <= k < rules.len() && (#[trigger] rules[k]).target == id && some_yield(
                    rules[k],
                    relations(rules[k].delta_input).delta,
                    relations(rules[k].right_input).full,
                    p,
                );
            let rule = rules[k];
            law_rule_joins(rule, relations, p);
            assert(rules.contains(rule));
            assert(own.contains(rule));
            let j = choose|j: int| 0 <= j < own.len() && own[j] == rule;
            assert(joined_pairs(own[j], relations).contains(p));
        }
    }
    assert forall|p: Pair| #[trigger] with_new(full, new).contains(p) <==> full.contains(p)
        || follows_by(rules, id, relations, p) by {
        assert(with_new(full, new).contains(p) <==> (full + new).contains(p));
        pairs::lemma_sum_contains(full, new, p);
        assert(new.contains(p) <==> follows_by(rules, id, relations, p) && !full.contains(p));
    }
}

/// Whether two lists hold the same rules.
pub open spec fn same_rules(a: Seq<RecursiveRulePlan>, b: Seq<RecursiveRulePlan>) -> bool {
    forall|rule: RecursiveRulePlan|
        #![trigger a.contains(rule)]
        #![trigger b.contains(rule)]
        a.contains(rule) <==> b.contains(rule)
}

proof fn lemma_same_contributions(
    a: Seq<RecursiveRulePlan>,
    b: Seq<RecursiveRulePlan>,
    id: RelationId,
    relations: Relations,
    p: Pair,
)
    requires
        same_rules(a, b),
        contributed(rules_for(a, id), relations).contains(p),
    ensures
        contributed(rules_for(b, id), relations).contains(p),
{
    let own = rules_for(a, id);
    let other = rules_for(b, id);
    lemma_rules_for(a, id);
    lemma_rules_for(b, id);
    lemma_contributed(own, relations, p);
    lemma_contributed(other, relations, p);
    let k = choose|k: int|
        0 <= k < own.len() && joined_pairs(#[trigger] own[k], relations).contains(p);
    assert(a.contains(own[k]));
    assert(other.contains(own[k]));
    let j = choose|j: int| 0 <= j < other.len() && other[j] == own[k];
    assert(joined_pairs(other[j], relations).contains(p));
}

proof fn lemma_same_round(
    a: Seq<RecursiveRulePlan>,
    b: Seq<RecursiveRulePlan>,
    relations: Relations,
)
    requires
        same_rules(a, b),
    ensures
        after_round(a, relations) == after_round(b, relations),
{
    assert forall|id: RelationId| #[trigger]
        after_round(a, relations)(id) == after_round(b, relations)(id) by {
        let x = contributed(rules_for(a, id), relations);
        let y = contributed(rules_for(b, id), relations);
        law_distinct_list(x);
        law_distinct_list(y);
        assert forall|p: Pair| #[trigger] distinct_list(y).contains(p) <==> x.contains(p) by {
            assert(distinct_list(y).contains(p) <==> y.contains(p));
            if x.contains(p) {
                lemma_same_contributions(a, b, id, relations, p);
            }
            if y.contains(p) {
                lemma_same_contributions(b, a, id, relations, p);
            }
        }
        assert(pairs::is_distinct(distinct_list(y), x)) by {
            assert forall|p: Pair|
                #![trigger distinct_list(y).contains(p)]
                #![trigger x.contains(p)]
                distinct_list(y).contains(p) <==> x.contains(p) by {}
        }
        assert(distinct_list(y) == distinct_list(x));
        lemma_rules_for(a, id);
        lemma_rules_for(b, id);
        if has_rule(a, id) {
            assert(b.contains(rules_for(a, id)[0]));
            assert(rules_for(b, id).contains(rules_for(a, id)[0]));
        }
        if has_rule(b, id) {
            assert(a.contains(rules_for(b, id)[0]));
            assert(rules_for(a, id).contains(rules_for(b, id)[0]));
        }
    }
    assert(after_round(a, relations) =~= after_round(b, relations));
}

/// The order of rules, and how often a rule is named, do not change what rounds compute.
pub proof fn law_rule_order_does_not_matter(
    a: Seq<RecursiveRulePlan>,
    b: Seq<RecursiveRulePlan>,
    relations: Relations,
    count: nat,
)
    requires
        same_rules(a, b),
    ensures
        after_rounds(a, relations, count) == after_rounds(b, relations, count),
    decreases count,
{
    if count > 0 {
        law_rule_order_does_not_matter(a, b, relations, (count - 1) as nat);
        lemma_same_round(a, b, after_rounds(a, relations, (count - 1) as nat));
    }
}

/// Whether no relation of a component has new pairs.
pub open spec fn is_settled(ids: Seq<RelationId>, relations: Relations) -> bool {
    forall|i: int| 0 <= i < ids.len() ==> relations(#[trigger] ids[i]).delta.len() == 0
}

/// Whether every rule starts from the newest pairs of a derived relation, and joins them on the
/// first two columns with a relation that no rule derives.
pub open spec fn rules_linear(rules: Seq<RecursiveRulePlan>) -> bool {
    forall|i: int|
        #![trigger rules[i].delta_input]
        0 <= i < rules.len() ==> {
            &&& recursion::is_binary_join(rules[i].join)
            &&& has_rule(rules, rules[i].delta_input)
            &&& !has_rule(rules, rules[i].right_input)
        }
}

/// Whether the rows of the relations that rules join with can be numbered.
pub open spec fn rights_numbered(rules: Seq<RecursiveRulePlan>, relations: Relations) -> bool {
    forall|k: int|
        0 <= k < rules.len() ==> relations((#[trigger] rules[k]).right_input).full.len() <= u32::MAX
}

/// Whether the pairs known of each relation are closed under every rule.
pub open spec fn is_closed_under(
    rules: Seq<RecursiveRulePlan>,
    relations: Relations,
    known: spec_fn(RelationId, Pair) -> bool,
) -> bool {
    forall|i: int, a: Pair, b: Pair, c: Pair|
        #![trigger yields(rules[i], a, b, c)]
        0 <= i < rules.len() && yields(rules[i], a, b, c) && known(rules[i].delta_input, a)
            && relations(rules[i].right_input).full.contains(b) ==> known(rules[i].target, c)
}

/// Whether every pair that follows from one that is not new is known.
pub open spec fn all_settled_but(rules: Seq<RecursiveRulePlan>, relations: Relations) -> bool {
    forall|i: int, a: Pair, b: Pair, c: Pair|
        #![trigger yields(rules[i], a, b, c)]
        0 <= i < rules.len() && yields(rules[i], a, b, c) && relations(
            rules[i].delta_input,
        ).full.contains(a) && !relations(rules[i].delta_input).delta.contains(a) && relations(
            rules[i].right_input,
        ).full.contains(b) ==> relations(rules[i].target).full.contains(c)
}

/// Whether the newest pairs of each relation are known.
pub open spec fn delta_known(relations: Relations) -> bool {
    forall|id: RelationId, p: Pair| #[trigger]
        relations(id).delta.contains(p) ==> relations(id).full.contains(p)
}

/// Whether every pair of each relation is among some.
pub open spec fn all_within(
    relations: Relations,
    known: spec_fn(RelationId, Pair) -> bool,
) -> bool {
    forall|id: RelationId, p: Pair| #[trigger] relations(id).full.contains(p) ==> known(id, p)
}

/// What every round of a component keeps.
pub proof fn lemma_component_round(
    rules: Seq<RecursiveRulePlan>,
    start: Relations,
    count: nat,
    known: spec_fn(RelationId, Pair) -> bool,
)
    requires
        rules_linear(rules),
        count > 0 ==> rights_numbered(rules, start),
        delta_known(start),
        all_settled_but(rules, start),
        is_closed_under(rules, start, known),
        all_within(start, known),
    ensures
        ({
            let state = after_rounds(rules, start, count);
            &&& delta_known(state)
            &&& all_settled_but(rules, state)
            &&& all_within(state, known)
            &&& forall|id: RelationId, p: Pair| #[trigger]
                start(id).full.contains(p) ==> state(id).full.contains(p)
            &&& forall|id: RelationId| !has_rule(rules, id) ==> #[trigger] state(id) == start(id)
        }),
    decreases count,
{
    if count > 0 {
        lemma_component_round(rules, start, (count - 1) as nat, known);
        let before = after_rounds(rules, start, (count - 1) as nat);
        let state = after_rounds(rules, start, count);
        assert forall|id: RelationId, p: Pair|
            (#[trigger] state(id).full.contains(p) ==> known(id, p) && (before(id).full.contains(p)
                || state(id).delta.contains(p))) && (before(id).full.contains(p) ==> state(
                id,
            ).full.contains(p)) by {
            lemma_component_step(rules, start, before, known, id, p);
        }
        assert forall|id: RelationId, p: Pair| #[trigger]
            state(id).delta.contains(p) implies state(id).full.contains(p) by {
            lemma_component_step(rules, start, before, known, id, p);
        }
        assert forall|i: int, a: Pair, b: Pair, c: Pair|
            #![trigger yields(rules[i], a, b, c)]
            0 <= i < rules.len() && yields(rules[i], a, b, c) && state(
                rules[i].delta_input,
            ).full.contains(a) && !state(rules[i].delta_input).delta.contains(a) && state(
                rules[i].right_input,
            ).full.contains(b) implies state(rules[i].target).full.contains(c) by {
            let rule = rules[i];
            assert(before(rule.delta_input).full.contains(a));
            assert(!has_rule(rules, rule.right_input));
            assert(before(rule.right_input) == start(rule.right_input));
            assert(has_rule(rules, rule.target));
            lemma_rights_bounded(rules, start, before);
            lemma_linear_binary(rules);
            law_target_new(rules, rule.target, before);
            let delta = before(rule.delta_input).delta;
            let right = before(rule.right_input).full;
            if delta.contains(a) {
                assert(some_yield(rule, delta, right, c));
                assert(follows_by(rules, rule.target, before, c));
            } else {
                assert(before(rule.target).full.contains(c));
            }
        }
    }
}

proof fn lemma_linear_binary(rules: Seq<RecursiveRulePlan>)
    requires
        rules_linear(rules),
    ensures
        forall|k: int|
            0 <= k < rules.len() ==> recursion::is_binary_join((#[trigger] rules[k]).join),
{
    assert forall|k: int| 0 <= k < rules.len() implies recursion::is_binary_join(
        (#[trigger] rules[k]).join,
    ) by {
        assert(has_rule(rules, rules[k].delta_input));
    }
}

proof fn lemma_rights_bounded(
    rules: Seq<RecursiveRulePlan>,
    start: Relations,
    before: Relations,
)
    requires
        rules_linear(rules),
        rights_numbered(rules, start),
        forall|other: RelationId|
            !has_rule(rules, other) ==> #[trigger] before(other) == start(other),
    ensures
        rights_numbered(rules, before),
{
    assert forall|k: int| 0 <= k < rules.len() implies before(
        (#[trigger] rules[k]).right_input,
    ).full.len() <= u32::MAX by {
        assert(has_rule(rules, rules[k].delta_input));
        assert(before(rules[k].right_input) == start(rules[k].right_input));
    }
}

/// What a round does to one relation.
proof fn lemma_component_step(
    rules: Seq<RecursiveRulePlan>,
    start: Relations,
    before: Relations,
    known: spec_fn(RelationId, Pair) -> bool,
    id: RelationId,
    p: Pair,
)
    requires
        rules_linear(rules),
        rights_numbered(rules, start),
        delta_known(before),
        is_closed_under(rules, start, known),
        all_within(before, known),
        forall|other: RelationId|
            !has_rule(rules, other) ==> #[trigger] before(other) == start(other),
    ensures
        ({
            let state = after_round(rules, before);
            &&& state(id).full.contains(p) ==> known(id, p) && (before(id).full.contains(p)
                || state(id).delta.contains(p))
            &&& before(id).full.contains(p) ==> state(id).full.contains(p)
            &&& state(id).delta.contains(p) ==> state(id).full.contains(p)
        }),
{
    let state = after_round(rules, before);
    if has_rule(rules, id) {
        lemma_rights_bounded(rules, start, before);
        lemma_linear_binary(rules);
        law_target_new(rules, id, before);
        let new = new_pairs(rules, id, before);
        assert(state(id).delta == new);
        assert(new.contains(p) <==> follows_by(rules, id, before, p) && !before(id).full.contains(
            p,
        ));
        if follows_by(rules, id, before, p) {
            let k = choose|k: int|
                0 <= k < rules.len() && (#[trigger] rules[k]).target == id && some_yield(
                    rules[k],
                    before(rules[k].delta_input).delta,
                    before(rules[k].right_input).full,
                    p,
                );
            let rule = rules[k];
            let delta = before(rule.delta_input).delta;
            let right = before(rule.right_input).full;
            assert(before(rule.right_input) == start(rule.right_input));
            let (a, b) = choose|a: Pair, b: Pair| #[trigger]
                yields(rule, a, b, p) && delta.contains(a) && right.contains(b);
            assert(before(rule.delta_input).full.contains(a));
            assert(yields(rules[k], a, b, p));
        }
    }
}

/// A component whose rules each extend a derived relation by one that no rule derives ends with the
/// least relations that hold the first pairs and are closed under the rules: they hold them, they
/// are closed, and every closed relations that hold them hold the result.
pub proof fn law_component_reaches_closure(
    rules: Seq<RecursiveRulePlan>,
    start: Relations,
    count: nat,
    known: spec_fn(RelationId, Pair) -> bool,
)
    requires
        rules_linear(rules),
        count > 0 ==> rights_numbered(rules, start),
        delta_known(start),
        all_settled_but(rules, start),
        forall|i: int|
            0 <= i < rules.len() ==> after_rounds(rules, start, count)(
                (#[trigger] rules[i]).target,
            ).delta.len() == 0,
    ensures
        ({
            let state = after_rounds(rules, start, count);
            &&& forall|id: RelationId, p: Pair| #[trigger]
                start(id).full.contains(p) ==> state(id).full.contains(p)
            &&& is_closed_under(rules, start, |id: RelationId, p: Pair| state(id).full.contains(p))
            &&& is_closed_under(rules, start, known) && all_within(start, known) ==> all_within(
                state,
                known,
            )
        }),
{
    let state = after_rounds(rules, start, count);
    let all = |id: RelationId, p: Pair| true;
    lemma_component_round(rules, start, count, all);
    let held = |id: RelationId, p: Pair| state(id).full.contains(p);
    assert forall|i: int, a: Pair, b: Pair, c: Pair|
        #![trigger yields(rules[i], a, b, c)]
        0 <= i < rules.len() && yields(rules[i], a, b, c) && held(rules[i].delta_input, a)
            && start(rules[i].right_input).full.contains(b) implies held(rules[i].target, c) by {
        let rule = rules[i];
        assert(state(rule.right_input) == start(rule.right_input));
        assert(has_rule(rules, rule.delta_input));
        let j = choose|j: int|
            0 <= j < rules.len() && (#[trigger] rules[j]).target == rule.delta_input;
        assert(state(rules[j].target).delta.len() == 0);
        assert(!state(rule.delta_input).delta.contains(a));
    }
    if is_closed_under(rules, start, known) && all_within(start, known) {
        lemma_component_round(rules, start, count, known);
    }
}

} // verus!
