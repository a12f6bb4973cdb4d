//! What the limit on rounds changes, and what it does not.
use vstd::prelude::*;

use crate::evaluation;
use crate::evaluation::StoreView;
use crate::execution_general;
use crate::execution_general::GeneralSccSummary;
use crate::relational::{ClauseView, ProgramPlanView, RelationId, SccPlanView};

verus! {

proof fn lemma_scc_limit(scc: SccPlanView, store: StoreView, low: usize, high: usize)
    requires
        low <= high,
        execution_general::run_scc(scc, store, low) is Some,
    ensures
        execution_general::run_scc(scc, store, high) == execution_general::run_scc(scc, store, low),
{
    if scc.recursive {
        let start = execution_general::started(scc, store);
        let n = choose|n: nat|
            n <= low && #[trigger] execution_general::settles_at(scc, start, n);
        assert(n <= high && execution_general::settles_at(scc, start, n));
    }
}

proof fn lemma_sccs_limit(sccs: Seq<SccPlanView>, store: StoreView, low: usize, high: usize)
    requires
        low <= high,
        execution_general::run_sccs(sccs, store, low) is Some,
    ensures
        execution_general::run_sccs(sccs, store, high) == execution_general::run_sccs(
            sccs,
            store,
            low,
        ),
    decreases sccs.len(),
{
    if sccs.len() > 0 {
        lemma_sccs_limit(sccs.drop_last(), store, low, high);
        lemma_scc_limit(
            sccs.last(),
            execution_general::run_sccs(sccs.drop_last(), store, low)->0,
            low,
            high,
        );
    }
}

/// A program that finishes within a limit finishes with the same result within every larger one.
pub proof fn law_larger_limit_gives_the_same(plan: ProgramPlanView, low: usize, high: usize)
    requires
        low <= high,
        execution_general::run_program(plan, low) is Some,
    ensures
        execution_general::run_program(plan, high) == execution_general::run_program(plan, low),
{
    lemma_sccs_limit(
        execution_general::all_sccs(plan.strata),
        execution_general::fact_store(plan.predicate_count as nat, plan.facts),
        low,
        high,
    );
}

/// A program that does not finish within a limit does not finish within a smaller one.
pub proof fn law_smaller_limit_fails_too(plan: ProgramPlanView, low: usize, high: usize)
    requires
        low <= high,
        execution_general::run_program(plan, high) is None,
    ensures
        execution_general::run_program(plan, low) is None,
{
    if execution_general::run_program(plan, low) is Some {
        law_larger_limit_gives_the_same(plan, low, high);
    }
}

/// What an evaluation reports does not depend on the limit, and no component is reported to have
/// taken more rounds than the limit allows.
pub proof fn law_summaries_stay_within_the_limit(
    plan: ProgramPlanView,
    low: usize,
    high: usize,
    summaries: Seq<GeneralSccSummary>,
)
    requires
        low <= high,
        execution_general::summarized(plan, low, summaries),
    ensures
        execution_general::summarized(plan, high, summaries),
        forall|j: int|
            0 <= j < summaries.len() && (#[trigger] execution_general::all_sccs(
                plan.strata,
            )[j]).recursive ==> summaries[j].iterations <= low,
{
    let sccs = execution_general::all_sccs(plan.strata);
    let start = execution_general::fact_store(plan.predicate_count as nat, plan.facts);
    assert forall|j: int| 0 <= j < sccs.len() implies #[trigger] execution_general::summary_at(
        sccs,
        start,
        high,
        summaries,
        j,
    ) by {
        assert(execution_general::summary_at(sccs, start, low, summaries, j));
        lemma_sccs_limit(sccs.take(j), start, low, high);
        lemma_sccs_limit(sccs.take(j + 1), start, low, high);
    }
    assert forall|j: int| 0 <= j < summaries.len() && (#[trigger] sccs[j]).recursive implies summaries[j].iterations
        <= low by {
        assert(execution_general::summary_at(sccs, start, low, summaries, j));
        let before = execution_general::run_sccs(sccs.take(j), start, low)->0;
        let from = execution_general::started(sccs[j], before);
        assert(sccs.take(j + 1).drop_last() =~= sccs.take(j));
        assert(execution_general::run_scc(sccs[j], before, low) is Some);
        let n = choose|n: nat|
            n <= low && #[trigger] execution_general::settles_at(sccs[j], from, n);
        execution_general::lemma_settles_once(sccs[j], from, n, summaries[j].iterations as nat);
    }
}

/// Two reports of one evaluation are the same.
pub proof fn law_summaries_are_determined(
    plan: ProgramPlanView,
    limit: usize,
    a: Seq<GeneralSccSummary>,
    b: Seq<GeneralSccSummary>,
)
    requires
        execution_general::summarized(plan, limit, a),
        execution_general::summarized(plan, limit, b),
    ensures
        a.len() == b.len(),
        forall|j: int|
            0 <= j < a.len() ==> {
                &&& (#[trigger] a[j]).relations@ == b[j].relations@
                &&& a[j].iterations == b[j].iterations
                &&& a[j].new_rows == b[j].new_rows
            },
{
    let sccs = execution_general::all_sccs(plan.strata);
    let start = execution_general::fact_store(plan.predicate_count as nat, plan.facts);
    assert forall|j: int| 0 <= j < a.len() implies {
        &&& (#[trigger] a[j]).relations@ == b[j].relations@
        &&& a[j].iterations == b[j].iterations
        &&& a[j].new_rows == b[j].new_rows
    } by {
        assert(execution_general::summary_at(sccs, start, limit, a, j));
        assert(execution_general::summary_at(sccs, start, limit, b, j));
        let before = execution_general::run_sccs(sccs.take(j), start, limit)->0;
        if sccs[j].recursive {
            execution_general::lemma_settles_once(
                sccs[j],
                execution_general::started(sccs[j], before),
                a[j].iterations as nat,
                b[j].iterations as nat,
            );
        }
        assert(a[j].relations@ =~= b[j].relations@);
    }
}

/// The tuples of exactly some length.
spec fn tuples_of(length: nat) -> Set<Seq<u32>> {
    Set::new(|t: Seq<u32>| t.len() == length)
}

/// The tuples of some length whose last value is below a bound.
spec fn tuples_below(length: nat, bound: nat) -> Set<Seq<u32>> {
    Set::new(|t: Seq<u32>| t.len() == length && length > 0 && t.last() < bound)
}

proof fn lemma_tuples_below(length: nat, bound: nat)
    requires
        length > 0,
        tuples_of((length - 1) as nat).finite(),
        bound <= u32::MAX + 1,
    ensures
        tuples_below(length, bound).finite(),
    decreases bound,
{
    if bound == 0 {
        assert(tuples_below(length, bound) =~= Set::empty());
    } else {
        lemma_tuples_below(length, (bound - 1) as nat);
        let value = (bound - 1) as u32;
        let shorter = tuples_of((length - 1) as nat);
        let with_last = |t: Seq<u32>| t.push(value);
        shorter.lemma_map_finite(with_last);
        let ending = shorter.map(with_last);
        assert forall|t: Seq<u32>| #[trigger]
            tuples_below(length, bound).contains(t) implies tuples_below(
            length,
            (bound - 1) as nat,
        ).union(ending).contains(t) by {
            if t.last() == value {
                assert(t =~= t.drop_last().push(value));
                assert(shorter.contains(t.drop_last()));
                assert(with_last(t.drop_last()) == t);
                assert(ending.contains(t));
            }
        }
        let all = tuples_below(length, (bound - 1) as nat).union(ending);
        assert(tuples_below(length, bound).subset_of(all));
        vstd::set_lib::lemma_set_subset_finite(all, tuples_below(length, bound));
    }
}

proof fn lemma_tuples_of(length: nat)
    ensures
        tuples_of(length).finite(),
    decreases length,
{
    if length == 0 {
        let none = Set::<Seq<u32>>::empty().insert(Seq::empty());
        assert(tuples_of(0) =~= none) by {
            assert forall|t: Seq<u32>| #[trigger] tuples_of(0).contains(t) <==> none.contains(t) by {
                if t.len() == 0 {
                    assert(t =~= Seq::empty());
                }
            }
        }
    } else {
        lemma_tuples_of((length - 1) as nat);
        lemma_tuples_below(length, (u32::MAX + 1) as nat);
        assert(tuples_of(length) =~= tuples_below(length, (u32::MAX + 1) as nat));
    }
}

/// The tuples up to a length, each with the place of a relation.
spec fn placed_tuples(places: nat, length: nat) -> Set<(int, Seq<u32>)> {
    Set::new(|p: (int, Seq<u32>)| 0 <= p.0 < places && p.1.len() <= length)
}

proof fn lemma_placed_tuples(places: nat, length: nat)
    ensures
        placed_tuples(places, length).finite(),
    decreases places, length,
{
    let whole = placed_tuples(places, length);
    if places == 0 {
        assert(whole =~= Set::empty());
    } else {
        lemma_tuples_of(length);
        let place = places - 1;
        let placed = |t: Seq<u32>| (place, t);
        tuples_of(length).lemma_map_finite(placed);
        let longest = tuples_of(length).map(placed);
        let fewer = placed_tuples((places - 1) as nat, length);
        lemma_placed_tuples((places - 1) as nat, length);
        let shorter = if length == 0 {
            Set::empty()
        } else {
            placed_tuples(places, (length - 1) as nat)
        };
        if length > 0 {
            lemma_placed_tuples(places, (length - 1) as nat);
        }
        let all = longest.union(fewer).union(shorter);
        assert forall|p: (int, Seq<u32>)| #[trigger] whole.contains(p) implies all.contains(p) by {
            if p.0 == place && p.1.len() == length {
                assert(tuples_of(length).contains(p.1));
                assert(placed(p.1) == p);
                assert(longest.contains(p));
            }
        }
        assert(whole.subset_of(all));
        vstd::set_lib::lemma_set_subset_finite(all, whole);
    }
}

/// Whether the heads of clauses have at most some length.
spec fn heads_within(clauses: Seq<ClauseView>, length: nat) -> bool {
    forall|c: int| 0 <= c < clauses.len() ==> (#[trigger] clauses[c]).head.len() <= length
}

proof fn lemma_heads_within(clauses: Seq<ClauseView>) -> (length: nat)
    ensures
        heads_within(clauses, length),
    decreases clauses.len(),
{
    if clauses.len() == 0 {
        0
    } else {
        let rest = clauses.drop_last();
        let earlier = lemma_heads_within(rest);
        let own = clauses.last().head.len();
        let length = if own > earlier {
            own
        } else {
            earlier
        };
        assert forall|c: int| 0 <= c < clauses.len() implies (#[trigger] clauses[c]).head.len()
            <= length by {
            if c < rest.len() {
                assert(rest[c] == clauses[c]);
            }
        }
        length
    }
}

/// Whether the relations of a component are among those of a store.
spec fn component_fits(scc: SccPlanView, store: StoreView) -> bool {
    &&& store.delta.len() == store.full.len()
    &&& store.full.len() <= u32::MAX + 1
    &&& forall|i: int|
        0 <= i < scc.relations.len() ==> (#[trigger] scc.relations[i]).0 < store.full.len()
}

/// What some rounds add to the relations of a component.
spec fn gained(scc: SccPlanView, start: StoreView, rounds: nat) -> Set<(int, Seq<u32>)> {
    Set::new(
        |p: (int, Seq<u32>)|
            {
                &&& 0 <= p.0 < scc.relations.len()
                &&& execution_general::iterated(
                    scc,
                    start,
                    rounds,
                ).full[scc.relations[p.0].0 as int].contains(p.1)
                &&& !start.full[scc.relations[p.0].0 as int].contains(p.1)
            },
    )
}

/// What a round does to a relation of a component.
proof fn lemma_round(scc: SccPlanView, start: StoreView, rounds: nat, i: int)
    requires
        component_fits(scc, start),
        0 <= i < scc.relations.len(),
    ensures
        ({
            let before = execution_general::iterated(scc, start, rounds);
            let after = execution_general::iterated(scc, start, rounds + 1);
            let relation = scc.relations[i];
            let new = execution_general::fresh(scc, before, relation);
            &&& after.full[relation.0 as int] == before.full[relation.0 as int].union(new)
            &&& after.delta[relation.0 as int] == new
            &&& before.full.len() == start.full.len()
            &&& before.delta.len() == start.full.len()
        }),
    decreases rounds,
{
    if rounds > 0 {
        lemma_round(scc, start, (rounds - 1) as nat, i);
    }
    let relation = scc.relations[i];
    assert(RelationId((relation.0 as int) as u32) == relation);
    assert(scc.relations.contains(relation));
}

proof fn lemma_keeps_first(scc: SccPlanView, start: StoreView, rounds: nat, i: int)
    requires
        component_fits(scc, start),
        0 <= i < scc.relations.len(),
    ensures
        start.full[scc.relations[i].0 as int].subset_of(
            execution_general::iterated(scc, start, rounds).full[scc.relations[i].0 as int],
        ),
    decreases rounds,
{
    if rounds > 0 {
        lemma_keeps_first(scc, start, (rounds - 1) as nat, i);
        lemma_round(scc, start, (rounds - 1) as nat, i);
    }
}

proof fn lemma_gained_within(
    scc: SccPlanView,
    start: StoreView,
    rounds: nat,
    length: nat,
    p: (int, Seq<u32>),
)
    requires
        component_fits(scc, start),
        heads_within(scc.recursive_variants, length),
        gained(scc, start, rounds).contains(p),
    ensures
        placed_tuples(scc.relations.len(), length).contains(p),
    decreases rounds,
{
    if rounds > 0 {
        let earlier = (rounds - 1) as nat;
        lemma_round(scc, start, earlier, p.0);
        let before = execution_general::iterated(scc, start, earlier);
        let relation = scc.relations[p.0];
        if before.full[relation.0 as int].contains(p.1) {
            assert(gained(scc, start, earlier).contains(p));
            lemma_gained_within(scc, start, earlier, length, p);
        } else {
            assert(execution_general::fresh(scc, before, relation).contains(p.1));
            let c = choose|c: int|
                0 <= c < scc.recursive_variants.len() && (
                #[trigger] scc.recursive_variants[c]).target == relation
                    && evaluation::clause_result(scc.recursive_variants[c], before).contains(p.1);
            let v = choose|v: spec_fn(u32) -> u32| #[trigger]
                evaluation::clause_holds(scc.recursive_variants[c], before, v) && p.1
                    == evaluation::instance(scc.recursive_variants[c].head, v);
            assert(p.1.len() == scc.recursive_variants[c].head.len());
        }
    }
}

/// Rounds that are not the last each add something.
proof fn lemma_gained_grows(scc: SccPlanView, start: StoreView, rounds: nat, length: nat)
    requires
        component_fits(scc, start),
        heads_within(scc.recursive_variants, length),
        forall|n: nat|
            n <= rounds ==> !execution_general::settled(
                scc,
                #[trigger] execution_general::iterated(scc, start, n),
            ),
    ensures
        gained(scc, start, rounds).finite(),
        gained(scc, start, rounds).len() >= rounds,
        gained(scc, start, rounds).len() <= placed_tuples(scc.relations.len(), length).len(),
    decreases rounds,
{
    let whole = placed_tuples(scc.relations.len(), length);
    let now = gained(scc, start, rounds);
    lemma_placed_tuples(scc.relations.len(), length);
    assert forall|p: (int, Seq<u32>)| #[trigger] now.contains(p) implies whole.contains(p) by {
        lemma_gained_within(scc, start, rounds, length, p);
    }
    assert(now.subset_of(whole));
    vstd::set_lib::lemma_set_subset_finite(whole, now);
    vstd::set_lib::lemma_len_subset(now, whole);
    if rounds > 0 {
        let earlier = (rounds - 1) as nat;
        lemma_gained_grows(scc, start, earlier, length);
        let before = gained(scc, start, earlier);
        let after = execution_general::iterated(scc, start, rounds);
        assert(!execution_general::settled(scc, after));
        let i = choose|i: int|
            0 <= i < scc.relations.len() && after.delta[(#[trigger] scc.relations[i]).0 as int]
                != Set::<Seq<u32>>::empty();
        lemma_round(scc, start, earlier, i);
        lemma_keeps_first(scc, start, earlier, i);
        let delta = after.delta[scc.relations[i].0 as int];
        assert(exists|t: Seq<u32>| delta.contains(t)) by {
            if forall|t: Seq<u32>| !delta.contains(t) {
                assert(delta =~= Set::empty());
            }
        }
        let t = choose|t: Seq<u32>| delta.contains(t);
        assert(now.contains((i, t)));
        assert(!before.contains((i, t)));
        assert forall|p: (int, Seq<u32>)| #[trigger] before.contains(p) implies now.contains(p) by {
            lemma_round(scc, start, earlier, p.0);
        }
        assert(before.insert((i, t)).subset_of(now));
        vstd::set_lib::lemma_len_subset(before.insert((i, t)), now);
    }
}

/// A component that has settled after some rounds first did so after one number of them.
proof fn lemma_first_settled(scc: SccPlanView, start: StoreView, rounds: nat) -> (first: nat)
    requires
        execution_general::settled(scc, execution_general::iterated(scc, start, rounds)),
    ensures
        first <= rounds,
        execution_general::settles_at(scc, start, first),
    decreases rounds,
{
    if exists|n: nat|
        n < rounds && execution_general::settled(
            scc,
            #[trigger] execution_general::iterated(scc, start, n),
        ) {
        let n = choose|n: nat|
            n < rounds && execution_general::settled(
                scc,
                #[trigger] execution_general::iterated(scc, start, n),
            );
        lemma_first_settled(scc, start, n)
    } else {
        rounds
    }
}

/// Every component settles: there are finitely many tuples for its rounds to add.
pub proof fn law_component_settles(scc: SccPlanView, start: StoreView) -> (rounds: nat)
    requires
        start.delta.len() == start.full.len(),
        start.full.len() <= u32::MAX + 1,
        forall|i: int|
            0 <= i < scc.relations.len() ==> (#[trigger] scc.relations[i]).0 < start.full.len(),
    ensures
        execution_general::settles_at(scc, start, rounds),
{
    let length = lemma_heads_within(scc.recursive_variants);
    let enough = placed_tuples(scc.relations.len(), length).len() + 1;
    if forall|n: nat|
        n <= enough ==> !execution_general::settled(
            scc,
            #[trigger] execution_general::iterated(scc, start, n),
        ) {
        lemma_gained_grows(scc, start, enough, length);
        0
    } else {
        let n = choose|n: nat|
            n <= enough && execution_general::settled(
                scc,
                #[trigger] execution_general::iterated(scc, start, n),
            );
        lemma_first_settled(scc, start, n)
    }
}

proof fn lemma_run_lengths(sccs: Seq<SccPlanView>, store: StoreView, limit: usize)
    requires
        execution_general::run_sccs(sccs, store, limit) is Some,
    ensures
        ({
            let after = execution_general::run_sccs(sccs, store, limit)->0;
            after.full.len() == store.full.len() && after.delta.len() == store.delta.len()
        }),
    decreases sccs.len(),
{
    if sccs.len() > 0 {
        lemma_run_lengths(sccs.drop_last(), store, limit);
        let scc = sccs.last();
        let before = execution_general::run_sccs(sccs.drop_last(), store, limit)->0;
        if scc.recursive {
            let start = execution_general::started(scc, before);
            lemma_iterated_lengths(
                scc,
                start,
                execution_general::settling_round(scc, start),
            );
        }
    }
}

proof fn lemma_iterated_lengths(scc: SccPlanView, store: StoreView, rounds: nat)
    ensures
        execution_general::iterated(scc, store, rounds).full.len() == store.full.len(),
        execution_general::iterated(scc, store, rounds).delta.len() == store.delta.len(),
    decreases rounds,
{
    if rounds > 0 {
        lemma_iterated_lengths(scc, store, (rounds - 1) as nat);
    }
}

proof fn lemma_limit_exists(sccs: Seq<SccPlanView>, store: StoreView) -> (enough: nat)
    requires
        store.delta.len() == store.full.len(),
        store.full.len() <= u32::MAX + 1,
        forall|k: int, i: int|
            #![trigger sccs[k].relations[i]]
            0 <= k < sccs.len() && 0 <= i < sccs[k].relations.len() ==> sccs[k].relations[i].0
                < store.full.len(),
    ensures
        forall|limit: usize|
            enough <= limit ==> #[trigger] execution_general::run_sccs(sccs, store, limit) is Some,
    decreases sccs.len(),
{
    if sccs.len() == 0 {
        0
    } else {
        let rest = sccs.drop_last();
        let scc = sccs.last();
        assert forall|k: int, i: int|
            #![trigger rest[k].relations[i]]
            0 <= k < rest.len() && 0 <= i < rest[k].relations.len() implies rest[k].relations[i].0
            < store.full.len() by {
            assert(sccs[k].relations[i] == rest[k].relations[i]);
        }
        let earlier = lemma_limit_exists(rest, store);
        if earlier > usize::MAX {
            earlier
        } else {
            let most = usize::MAX;
            assert(execution_general::run_sccs(rest, store, most) is Some);
            lemma_run_lengths(rest, store, most);
            let before = execution_general::run_sccs(rest, store, most)->0;
            let start = execution_general::started(scc, before);
            assert forall|i: int| 0 <= i < scc.relations.len() implies (
            #[trigger] scc.relations[i]).0 < start.full.len() by {
                assert(sccs[sccs.len() - 1].relations[i] == scc.relations[i]);
            }
            let rounds = law_component_settles(scc, start);
            let enough = if rounds > earlier {
                rounds
            } else {
                earlier
            };
            assert forall|limit: usize|
                enough <= limit implies #[trigger] execution_general::run_sccs(sccs, store, limit)
                is Some by {
                assert(execution_general::run_sccs(rest, store, limit) is Some);
                lemma_sccs_limit(rest, store, limit, most);
                assert(rounds <= limit && execution_general::settles_at(scc, start, rounds));
            }
            enough
        }
    }
}

/// Every program finishes: a number of rounds is enough for it, and every limit that allows so many
/// gives a result.
pub proof fn law_some_limit_is_enough(plan: ProgramPlanView) -> (enough: nat)
    requires
        execution_general::plan_valid(plan),
    ensures
        forall|limit: usize|
            enough <= limit ==> #[trigger] execution_general::run_program(plan, limit) is Some,
{
    let sccs = execution_general::all_sccs(plan.strata);
    let start = execution_general::fact_store(plan.predicate_count as nat, plan.facts);
    lemma_sccs_valid(plan, plan.strata.len() as int);
    assert(plan.strata.take(plan.strata.len() as int) =~= plan.strata);
    assert forall|k: int, i: int|
        #![trigger sccs[k].relations[i]]
        0 <= k < sccs.len() && 0 <= i < sccs[k].relations.len() implies sccs[k].relations[i].0
        < start.full.len() by {
        assert(execution_general::scc_valid(sccs[k], plan.predicate_count as int));
    }
    let enough = lemma_limit_exists(sccs, start);
    assert forall|limit: usize|
        enough <= limit implies #[trigger] execution_general::run_program(plan, limit) is Some by {
        assert(execution_general::run_sccs(sccs, start, limit) is Some);
    }
    enough
}

proof fn lemma_sccs_valid(plan: ProgramPlanView, count: int)
    requires
        execution_general::plan_valid(plan),
        0 <= count <= plan.strata.len(),
    ensures
        forall|k: int|
            0 <= k < execution_general::all_sccs(plan.strata.take(count)).len()
                ==> execution_general::scc_valid(
                #[trigger] execution_general::all_sccs(plan.strata.take(count))[k],
                plan.predicate_count as int,
            ),
    decreases count,
{
    if count > 0 {
        lemma_sccs_valid(plan, count - 1);
        let taken = plan.strata.take(count);
        assert(taken.drop_last() =~= plan.strata.take(count - 1));
        let earlier = execution_general::all_sccs(plan.strata.take(count - 1));
        let all = execution_general::all_sccs(taken);
        assert forall|k: int| 0 <= k < all.len() implies execution_general::scc_valid(
            #[trigger] all[k],
            plan.predicate_count as int,
        ) by {
            if k < earlier.len() {
                assert(all[k] == earlier[k]);
            } else {
                assert(all[k] == plan.strata[count - 1].sccs[k - earlier.len()]);
            }
        }
    }
}

} // verus!
