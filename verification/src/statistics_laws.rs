//! Join order and live bindings do not change what a plan computes.
use vstd::prelude::*;

use crate::evaluation;
use crate::evaluation::StoreView;
use crate::execution_general;
use crate::execution_general::GeneralSccSummary;
use crate::relational::{
    BindingId, ClauseView, PlannedAtomView, ProgramPlanView, RelationId, SccPlanView,
    StratumPlanView,
};
use crate::semantics;
use crate::statistics;

verus! {

/// An optimized clause derives what it derived before.
pub proof fn law_optimized_clause_derives_the_same(
    before: ClauseView,
    after: ClauseView,
    statistics: Seq<usize>,
    store: StoreView,
)
    requires
        statistics::is_optimized(before, after, statistics),
    ensures
        evaluation::clause_result(after, store) == evaluation::clause_result(before, store),
{
    let a = evaluation::clause_result(before, store);
    let b = evaluation::clause_result(after, store);
    assert forall|t: Seq<u32>| a.contains(t) <==> b.contains(t) by {
        if a.contains(t) {
            let v = choose|v: spec_fn(u32) -> u32| #[trigger]
                evaluation::clause_holds(before, store, v) && t == evaluation::instance(
                    before.head,
                    v,
                );
            semantics::lemma_optimized_holds(before, after, statistics, store, v);
            assert(evaluation::clause_holds(after, store, v));
        }
        if b.contains(t) {
            let v = choose|v: spec_fn(u32) -> u32| #[trigger]
                evaluation::clause_holds(after, store, v) && t == evaluation::instance(
                    after.head,
                    v,
                );
            semantics::lemma_optimized_holds(before, after, statistics, store, v);
            assert(evaluation::clause_holds(before, store, v));
        }
    }
    assert(a =~= b);
}

proof fn lemma_derived_same(
    before: Seq<ClauseView>,
    after: Seq<ClauseView>,
    statistics: Seq<usize>,
    store: StoreView,
    relation: RelationId,
)
    requires
        statistics::all_optimized(before, after, statistics),
    ensures
        evaluation::derived(after, store, relation) == evaluation::derived(before, store, relation),
{
    let a = evaluation::derived(before, store, relation);
    let b = evaluation::derived(after, store, relation);
    assert forall|c: int| 0 <= c < before.len() implies evaluation::clause_result(
        #[trigger] after[c],
        store,
    ) == evaluation::clause_result(before[c], store) && after[c].target == before[c].target by {
        assert(statistics::is_optimized(before[c], after[c], statistics));
        law_optimized_clause_derives_the_same(before[c], after[c], statistics, store);
    }
    assert forall|t: Seq<u32>| a.contains(t) <==> b.contains(t) by {
        if a.contains(t) {
            let c = choose|c: int|
                0 <= c < before.len() && (#[trigger] before[c]).target == relation
                    && evaluation::clause_result(before[c], store).contains(t);
            assert(after[c].target == relation);
        }
        if b.contains(t) {
            let c = choose|c: int|
                0 <= c < after.len() && (#[trigger] after[c]).target == relation
                    && evaluation::clause_result(after[c], store).contains(t);
            assert(before[c].target == relation);
        }
    }
    assert(a =~= b);
}

proof fn lemma_seeded_same(
    before: SccPlanView,
    after: SccPlanView,
    statistics: Seq<usize>,
    store: StoreView,
)
    requires
        statistics::scc_optimized(before, after, statistics),
    ensures
        execution_general::seeded(after, store) == execution_general::seeded(before, store),
        execution_general::started(after, store) == execution_general::started(before, store),
{
    let a = execution_general::seeded(before, store);
    let b = execution_general::seeded(after, store);
    assert forall|r: int| 0 <= r < store.full.len() implies #[trigger] a.full[r] == b.full[r] by {
        lemma_derived_same(before.seeds, after.seeds, statistics, store, RelationId(r as u32));
    }
    assert(a.full =~= b.full);
    assert(execution_general::started(before, store).delta =~= execution_general::started(
        after,
        store,
    ).delta);
}

proof fn lemma_advanced_same(
    before: SccPlanView,
    after: SccPlanView,
    statistics: Seq<usize>,
    store: StoreView,
)
    requires
        statistics::scc_optimized(before, after, statistics),
    ensures
        execution_general::advanced(after, store) == execution_general::advanced(before, store),
{
    assert forall|relation: RelationId| #[trigger]
        execution_general::fresh(after, store, relation) == execution_general::fresh(
            before,
            store,
            relation,
        ) by {
        lemma_derived_same(
            before.recursive_variants,
            after.recursive_variants,
            statistics,
            store,
            relation,
        );
    }
    let a = execution_general::advanced(before, store);
    let b = execution_general::advanced(after, store);
    assert(a.full =~= b.full);
    assert(a.delta =~= b.delta);
}

proof fn lemma_iterated_same(
    before: SccPlanView,
    after: SccPlanView,
    statistics: Seq<usize>,
    store: StoreView,
    rounds: nat,
)
    requires
        statistics::scc_optimized(before, after, statistics),
    ensures
        execution_general::iterated(after, store, rounds) == execution_general::iterated(
            before,
            store,
            rounds,
        ),
    decreases rounds,
{
    if rounds > 0 {
        let fewer = (rounds - 1) as nat;
        lemma_iterated_same(before, after, statistics, store, fewer);
        lemma_advanced_same(
            before,
            after,
            statistics,
            execution_general::iterated(before, store, fewer),
        );
    }
}

proof fn lemma_settles_same(
    before: SccPlanView,
    after: SccPlanView,
    statistics: Seq<usize>,
    store: StoreView,
    rounds: nat,
)
    requires
        statistics::scc_optimized(before, after, statistics),
    ensures
        execution_general::settles_at(after, store, rounds) <==> execution_general::settles_at(
            before,
            store,
            rounds,
        ),
{
    assert forall|n: nat|
        execution_general::settled(
            after,
            #[trigger] execution_general::iterated(after, store, n),
        ) <==> execution_general::settled(
            before,
            execution_general::iterated(before, store, n),
        ) by {
        lemma_iterated_same(before, after, statistics, store, n);
    }
    if execution_general::settles_at(before, store, rounds) {
        assert forall|n: nat| n < rounds implies !execution_general::settled(
            after,
            #[trigger] execution_general::iterated(after, store, n),
        ) by {
            let earlier = execution_general::iterated(before, store, n);
            assert(!execution_general::settled(before, earlier));
        }
    }
    if execution_general::settles_at(after, store, rounds) {
        assert forall|n: nat| n < rounds implies !execution_general::settled(
            before,
            #[trigger] execution_general::iterated(before, store, n),
        ) by {
            let earlier = execution_general::iterated(after, store, n);
            assert(!execution_general::settled(after, earlier));
        }
    }
}

proof fn lemma_settling_round(scc: SccPlanView, store: StoreView, n: nat)
    requires
        execution_general::settles_at(scc, store, n),
    ensures
        execution_general::settling_round(scc, store) == n,
{
    let m = execution_general::settling_round(scc, store);
    assert(execution_general::settles_at(scc, store, m));
    if m < n {
        assert(!execution_general::settled(scc, execution_general::iterated(scc, store, m)));
    }
    if n < m {
        assert(!execution_general::settled(scc, execution_general::iterated(scc, store, n)));
    }
}

proof fn lemma_run_scc_same(
    before: SccPlanView,
    after: SccPlanView,
    statistics: Seq<usize>,
    store: StoreView,
    limit: usize,
)
    requires
        statistics::scc_optimized(before, after, statistics),
    ensures
        execution_general::run_scc(after, store, limit) == execution_general::run_scc(
            before,
            store,
            limit,
        ),
{
    lemma_seeded_same(before, after, statistics, store);
    let start = execution_general::started(before, store);
    assert forall|n: nat| #[trigger]
        execution_general::settles_at(after, start, n) <==> execution_general::settles_at(
            before,
            start,
            n,
        ) by {
        lemma_settles_same(before, after, statistics, start, n);
    }
    if before.recursive && exists|n: nat|
        n <= limit && #[trigger] execution_general::settles_at(before, start, n) {
        let n = choose|n: nat|
            n <= limit && #[trigger] execution_general::settles_at(before, start, n);
        assert(execution_general::settles_at(after, start, n));
        lemma_settling_round(before, start, n);
        lemma_settling_round(after, start, n);
        lemma_iterated_same(before, after, statistics, start, n);
    }
    if before.recursive && exists|n: nat|
        n <= limit && #[trigger] execution_general::settles_at(after, start, n) {
        let n = choose|n: nat|
            n <= limit && #[trigger] execution_general::settles_at(after, start, n);
        assert(execution_general::settles_at(before, start, n));
    }
}

proof fn lemma_sccs_optimized(
    before: Seq<StratumPlanView>,
    after: Seq<StratumPlanView>,
    statistics: Seq<usize>,
)
    requires
        before.len() == after.len(),
        forall|s: int|
            0 <= s < before.len() ==> statistics::stratum_optimized(
                before[s],
                #[trigger] after[s],
                statistics,
            ),
    ensures
        execution_general::all_sccs(before).len() == execution_general::all_sccs(after).len(),
        forall|k: int|
            0 <= k < execution_general::all_sccs(before).len() ==> statistics::scc_optimized(
                execution_general::all_sccs(before)[k],
                #[trigger] execution_general::all_sccs(after)[k],
                statistics,
            ),
    decreases before.len(),
{
    if before.len() > 0 {
        let x = before.drop_last();
        let y = after.drop_last();
        assert forall|s: int| 0 <= s < x.len() implies statistics::stratum_optimized(
            x[s],
            #[trigger] y[s],
            statistics,
        ) by {
            assert(after[s] == y[s]);
        }
        lemma_sccs_optimized(x, y, statistics);
        let s = before.len() - 1;
        assert(statistics::stratum_optimized(before[s], after[s], statistics));
        let earlier = execution_general::all_sccs(x).len();
        assert forall|k: int|
            0 <= k < execution_general::all_sccs(before).len() implies statistics::scc_optimized(
            execution_general::all_sccs(before)[k],
            #[trigger] execution_general::all_sccs(after)[k],
            statistics,
        ) by {
            if k < earlier {
                assert(execution_general::all_sccs(after)[k] == execution_general::all_sccs(y)[k]);
            } else {
                assert(execution_general::all_sccs(after)[k] == after[s].sccs[k - earlier]);
            }
        }
    }
}

proof fn lemma_run_sccs_same(
    before: Seq<SccPlanView>,
    after: Seq<SccPlanView>,
    statistics: Seq<usize>,
    store: StoreView,
    limit: usize,
)
    requires
        before.len() == after.len(),
        forall|k: int|
            0 <= k < before.len() ==> statistics::scc_optimized(
                before[k],
                #[trigger] after[k],
                statistics,
            ),
    ensures
        execution_general::run_sccs(after, store, limit) == execution_general::run_sccs(
            before,
            store,
            limit,
        ),
    decreases before.len(),
{
    if before.len() > 0 {
        let x = before.drop_last();
        let y = after.drop_last();
        assert forall|k: int| 0 <= k < x.len() implies statistics::scc_optimized(
            x[k],
            #[trigger] y[k],
            statistics,
        ) by {
            assert(after[k] == y[k]);
        }
        lemma_run_sccs_same(x, y, statistics, store, limit);
        let k = before.len() - 1;
        assert(statistics::scc_optimized(before[k], after[k], statistics));
        if let Some(earlier) = execution_general::run_sccs(x, store, limit) {
            lemma_run_scc_same(before[k], after[k], statistics, earlier, limit);
        }
    }
}

/// An optimized plan computes what it computed before, whatever the estimates, and exceeds a limit
/// on rounds where it exceeded it before.
pub proof fn law_optimizing_keeps_results(
    before: ProgramPlanView,
    after: ProgramPlanView,
    statistics: Seq<usize>,
    limit: usize,
)
    requires
        statistics::plan_optimized(before, after, statistics),
    ensures
        execution_general::run_program(after, limit) == execution_general::run_program(
            before,
            limit,
        ),
{
    lemma_sccs_optimized(before.strata, after.strata, statistics);
    lemma_run_sccs_same(
        execution_general::all_sccs(before.strata),
        execution_general::all_sccs(after.strata),
        statistics,
        execution_general::fact_store(before.predicate_count as nat, before.facts),
        limit,
    );
}

proof fn lemma_new_tuples_same(
    before: SccPlanView,
    after: SccPlanView,
    statistics: Seq<usize>,
    store: StoreView,
    rounds: nat,
)
    requires
        statistics::scc_optimized(before, after, statistics),
    ensures
        execution_general::new_tuples(after, store, rounds) == execution_general::new_tuples(
            before,
            store,
            rounds,
        ),
    decreases rounds,
{
    if rounds > 0 {
        let earlier = (rounds - 1) as nat;
        lemma_new_tuples_same(before, after, statistics, store, earlier);
        lemma_iterated_same(before, after, statistics, store, earlier);
        lemma_fresh_count_same(
            before,
            after,
            statistics,
            execution_general::iterated(before, store, earlier),
            before.relations.len(),
        );
    }
}

proof fn lemma_fresh_count_same(
    before: SccPlanView,
    after: SccPlanView,
    statistics: Seq<usize>,
    store: StoreView,
    count: nat,
)
    requires
        statistics::scc_optimized(before, after, statistics),
    ensures
        execution_general::fresh_count(after, store, count) == execution_general::fresh_count(
            before,
            store,
            count,
        ),
    decreases count,
{
    if count > 0 {
        lemma_fresh_count_same(before, after, statistics, store, (count - 1) as nat);
        lemma_derived_same(
            before.recursive_variants,
            after.recursive_variants,
            statistics,
            store,
            before.relations[count - 1],
        );
    }
}

/// Optimizing a plan does not change what an evaluation reports of its components.
pub proof fn law_optimizing_keeps_summaries(
    before: ProgramPlanView,
    after: ProgramPlanView,
    statistics: Seq<usize>,
    limit: usize,
    summaries: Seq<GeneralSccSummary>,
)
    requires
        statistics::plan_optimized(before, after, statistics),
    ensures
        execution_general::summarized(after, limit, summaries) <==> execution_general::summarized(
            before,
            limit,
            summaries,
        ),
{
    let a = execution_general::all_sccs(before.strata);
    let b = execution_general::all_sccs(after.strata);
    let start = execution_general::fact_store(before.predicate_count as nat, before.facts);
    lemma_sccs_optimized(before.strata, after.strata, statistics);
    assert forall|j: int| 0 <= j < a.len() implies (#[trigger] execution_general::summary_at(
        a,
        start,
        limit,
        summaries,
        j,
    ) <==> execution_general::summary_at(b, start, limit, summaries, j)) by {
        assert(statistics::scc_optimized(a[j], b[j], statistics));
        assert forall|k: int| 0 <= k < a.len() implies statistics::scc_optimized(
            a[k],
            #[trigger] b[k],
            statistics,
        ) by {}
        assert forall|count: int| 0 <= count <= a.len() implies #[trigger]
            execution_general::run_sccs(b.take(count), start, limit)
            == execution_general::run_sccs(a.take(count), start, limit) by {
            assert forall|k: int| 0 <= k < count implies statistics::scc_optimized(
                a.take(count)[k],
                #[trigger] b.take(count)[k],
                statistics,
            ) by {
                assert(statistics::scc_optimized(a[k], b[k], statistics));
            }
            lemma_run_sccs_same(a.take(count), b.take(count), statistics, start, limit);
        }
        let first = execution_general::run_sccs(b.take(j), start, limit);
        let next = execution_general::run_sccs(b.take(j + 1), start, limit);
        lemma_seeded_same(a[j], b[j], statistics, first->0);
        let from = execution_general::started(a[j], first->0);
        let rounds = summaries[j].iterations as nat;
        lemma_settles_same(a[j], b[j], statistics, from, rounds);
        lemma_new_tuples_same(a[j], b[j], statistics, from, rounds);
        assert(b[j].seeds.len() == a[j].seeds.len());
    }
    if execution_general::summarized(before, limit, summaries) {
        assert forall|j: int| 0 <= j < b.len() implies #[trigger] execution_general::summary_at(
            b,
            start,
            limit,
            summaries,
            j,
        ) by {
            assert(execution_general::summary_at(a, start, limit, summaries, j));
        }
    }
}

/// The join order holds each atom as often as it was given.
pub proof fn law_join_order_permutes(
    remaining: Seq<PlannedAtomView>,
    chosen: Seq<PlannedAtomView>,
    statistics: Seq<usize>,
)
    ensures
        statistics::join_order(remaining, chosen, statistics).to_multiset()
            == remaining.to_multiset().add(chosen.to_multiset()),
    decreases remaining.len(),
{
    broadcast use vstd::seq_lib::group_to_multiset_ensures;

    let result = statistics::join_order(remaining, chosen, statistics);
    if remaining.len() > 0 {
        let best = statistics::best_position(remaining, chosen, statistics, remaining.len());
        lemma_best_is_least(remaining, chosen, statistics, remaining.len());
        let rest = remaining.remove(best);
        let more = chosen.push(remaining[best]);
        law_join_order_permutes(rest, more, statistics);
        assert(remaining.contains(remaining[best]));
        assert(remaining.to_multiset().count(remaining[best]) > 0);
        assert(rest.to_multiset() =~= remaining.to_multiset().remove(remaining[best]));
        assert(more.to_multiset() =~= chosen.to_multiset().insert(remaining[best]));
        assert(result.to_multiset() =~= remaining.to_multiset().add(chosen.to_multiset()));
    } else {
        assert(remaining.to_multiset().len() == 0);
        assert(remaining =~= Seq::empty());
        assert(remaining.to_multiset() =~= vstd::multiset::Multiset::empty());
        assert(result.to_multiset() =~= remaining.to_multiset().add(chosen.to_multiset()));
    }
}

/// The chosen atom is one that no other comes before.
proof fn lemma_best_is_least(
    atoms: Seq<PlannedAtomView>,
    chosen: Seq<PlannedAtomView>,
    statistics: Seq<usize>,
    count: nat,
)
    requires
        0 < count <= atoms.len(),
    ensures
        0 <= statistics::best_position(atoms, chosen, statistics, count) < count,
        forall|k: int|
            0 <= k < count ==> !statistics::rank_less(
                statistics::join_rank(#[trigger] atoms[k], chosen, statistics),
                statistics::join_rank(
                    atoms[statistics::best_position(atoms, chosen, statistics, count)],
                    chosen,
                    statistics,
                ),
            ),
    decreases count,
{
    if count > 1 {
        lemma_best_is_least(atoms, chosen, statistics, (count - 1) as nat);
    }
}

/// A list whose first atom no other comes before has its first atom chosen.
proof fn lemma_first_is_best(
    atoms: Seq<PlannedAtomView>,
    chosen: Seq<PlannedAtomView>,
    statistics: Seq<usize>,
    count: nat,
)
    requires
        count <= atoms.len(),
        forall|k: int|
            0 <= k < atoms.len() ==> !statistics::rank_less(
                statistics::join_rank(#[trigger] atoms[k], chosen, statistics),
                statistics::join_rank(atoms[0], chosen, statistics),
            ),
    ensures
        statistics::best_position(atoms, chosen, statistics, count) == 0,
    decreases count,
{
    if count > 1 {
        lemma_first_is_best(atoms, chosen, statistics, (count - 1) as nat);
    }
}

/// What is ordered behind chosen atoms is ordered in the same way again.
proof fn lemma_order_stays(
    remaining: Seq<PlannedAtomView>,
    chosen: Seq<PlannedAtomView>,
    statistics: Seq<usize>,
) -> (tail: Seq<PlannedAtomView>)
    ensures
        statistics::join_order(remaining, chosen, statistics) == chosen + tail,
        tail.len() == remaining.len(),
        forall|atom: PlannedAtomView| #[trigger] tail.contains(atom) ==> remaining.contains(atom),
        statistics::join_order(tail, chosen, statistics) == chosen + tail,
    decreases remaining.len(),
{
    if remaining.len() == 0 {
        let tail = Seq::<PlannedAtomView>::empty();
        assert(chosen + tail =~= chosen);
        tail
    } else {
        lemma_best_is_least(remaining, chosen, statistics, remaining.len());
        let best = statistics::best_position(remaining, chosen, statistics, remaining.len());
        let first = remaining[best];
        let rest = remaining.remove(best);
        let more = chosen.push(first);
        let later = lemma_order_stays(rest, more, statistics);
        let tail = seq![first] + later;
        assert(more + later =~= chosen + tail);
        assert forall|atom: PlannedAtomView| #[trigger] tail.contains(atom) implies remaining.contains(
            atom,
        ) by {
            let k = choose|k: int| 0 <= k < tail.len() && tail[k] == atom;
            if k == 0 {
                assert(remaining[best] == atom);
            } else {
                assert(later[k - 1] == atom);
                assert(later.contains(atom));
                let m = choose|m: int| 0 <= m < rest.len() && rest[m] == atom;
                if m < best {
                    assert(remaining[m] == atom);
                } else {
                    assert(remaining[m + 1] == atom);
                }
            }
        }
        assert forall|k: int| 0 <= k < tail.len() implies !statistics::rank_less(
            statistics::join_rank(#[trigger] tail[k], chosen, statistics),
            statistics::join_rank(tail[0], chosen, statistics),
        ) by {
            assert(tail.contains(tail[k]));
            let m = choose|m: int| 0 <= m < remaining.len() && remaining[m] == tail[k];
            assert(tail[0] == first);
            assert(remaining[m] == tail[k]);
        }
        lemma_first_is_best(tail, chosen, statistics, tail.len());
        assert(tail.remove(0) =~= later);
        assert(chosen.push(tail[0]) =~= more);
        tail
    }
}

/// Two lists of bindings in ascending order that hold the same are the same.
proof fn lemma_ascending_same(a: Seq<BindingId>, b: Seq<BindingId>)
    requires
        statistics::ascending_bindings(a),
        statistics::ascending_bindings(b),
        forall|x: u32| #[trigger] a.contains(BindingId(x)) <==> b.contains(BindingId(x)),
    ensures
        a == b,
    decreases a.len(),
{
    if a.len() == 0 {
        if b.len() > 0 {
            assert(b[0] == BindingId(b[0].0));
            assert(b.contains(BindingId(b[0].0)));
            assert(a.contains(BindingId(b[0].0)));
        }
        assert(a =~= b);
    } else {
        let x = a.last();
        assert(a[a.len() - 1] == BindingId(x.0));
        assert(a.contains(BindingId(x.0)));
        assert(b.contains(BindingId(x.0)));
        let y = b.last();
        assert(b[b.len() - 1] == BindingId(y.0));
        assert(b.contains(BindingId(y.0)));
        assert(a.contains(BindingId(y.0)));
        assert(x == y);
        let c = a.drop_last();
        let d = b.drop_last();
        assert forall|z: u32| #[trigger] c.contains(BindingId(z)) <==> d.contains(BindingId(z)) by {
            if c.contains(BindingId(z)) {
                let k = choose|k: int| 0 <= k < c.len() && c[k] == BindingId(z);
                assert(a[k] == BindingId(z));
                assert(a.contains(BindingId(z)));
                let m = choose|m: int| 0 <= m < b.len() && b[m] == BindingId(z);
                assert(z < x.0);
                assert(d[m] == BindingId(z));
            }
            if d.contains(BindingId(z)) {
                let k = choose|k: int| 0 <= k < d.len() && d[k] == BindingId(z);
                assert(b[k] == BindingId(z));
                assert(b.contains(BindingId(z)));
                assert(a.contains(BindingId(z)));
                let m = choose|m: int| 0 <= m < a.len() && a[m] == BindingId(z);
                assert(z < y.0);
                assert(c[m] == BindingId(z));
            }
        }
        lemma_ascending_same(c, d);
        assert(a =~= c.push(x));
        assert(b =~= d.push(y));
    }
}

/// Optimizing an optimized clause again, with the same statistics, changes nothing.
pub proof fn law_optimized_clause_stays(
    before: ClauseView,
    once: ClauseView,
    twice: ClauseView,
    statistics: Seq<usize>,
)
    requires
        statistics::is_optimized(before, once, statistics),
        statistics::is_optimized(once, twice, statistics),
    ensures
        twice == once,
{
    let tail = lemma_order_stays(before.positive, Seq::empty(), statistics);
    assert(Seq::<PlannedAtomView>::empty() + tail =~= tail);
    assert(once.positive == tail);
    assert(twice.positive == once.positive);
    assert forall|i: int| 0 <= i < once.live_after.len() implies #[trigger] twice.live_after[i]
        == once.live_after[i] by {
        let a = twice.live_after[i];
        let b = once.live_after[i];
        assert forall|x: u32| #[trigger] a.contains(BindingId(x)) <==> b.contains(BindingId(x)) by {
            assert(twice.live_after[i].contains(BindingId(x)) <==> evaluation::is_live(
                twice,
                i + 1,
                x,
            ));
            assert(once.live_after[i].contains(BindingId(x)) <==> evaluation::is_live(
                once,
                i + 1,
                x,
            ));
            assert(evaluation::is_live(twice, i + 1, x) == evaluation::is_live(once, i + 1, x));
        }
        lemma_ascending_same(a, b);
    }
    assert(twice.live_after =~= once.live_after);
    assert(twice =~= once);
}

proof fn lemma_clauses_stay(
    before: Seq<ClauseView>,
    once: Seq<ClauseView>,
    twice: Seq<ClauseView>,
    statistics: Seq<usize>,
)
    requires
        statistics::all_optimized(before, once, statistics),
        statistics::all_optimized(once, twice, statistics),
    ensures
        twice == once,
{
    assert forall|c: int| 0 <= c < once.len() implies #[trigger] twice[c] == once[c] by {
        assert(statistics::is_optimized(before[c], once[c], statistics));
        assert(statistics::is_optimized(once[c], twice[c], statistics));
        law_optimized_clause_stays(before[c], once[c], twice[c], statistics);
    }
    assert(twice =~= once);
}

/// Optimizing an optimized plan again, with the same statistics, changes nothing.
pub proof fn law_optimizing_twice_changes_nothing(
    before: ProgramPlanView,
    once: ProgramPlanView,
    twice: ProgramPlanView,
    statistics: Seq<usize>,
)
    requires
        statistics::plan_optimized(before, once, statistics),
        statistics::plan_optimized(once, twice, statistics),
    ensures
        twice == once,
{
    assert forall|s: int| 0 <= s < once.strata.len() implies #[trigger] twice.strata[s]
        == once.strata[s] by {
        assert(statistics::stratum_optimized(before.strata[s], once.strata[s], statistics));
        assert(statistics::stratum_optimized(once.strata[s], twice.strata[s], statistics));
        let a = before.strata[s].sccs;
        let b = once.strata[s].sccs;
        let c = twice.strata[s].sccs;
        assert forall|k: int| 0 <= k < b.len() implies #[trigger] c[k] == b[k] by {
            assert(statistics::scc_optimized(a[k], b[k], statistics));
            assert(statistics::scc_optimized(b[k], c[k], statistics));
            lemma_clauses_stay(a[k].seeds, b[k].seeds, c[k].seeds, statistics);
            lemma_clauses_stay(
                a[k].recursive_variants,
                b[k].recursive_variants,
                c[k].recursive_variants,
                statistics,
            );
            assert(c[k] =~= b[k]);
        }
        assert(c =~= b);
    }
    assert(twice.strata =~= once.strata);
    assert(twice =~= once);
}

} // verus!
