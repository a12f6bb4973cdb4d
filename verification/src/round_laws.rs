//! What rounds of evaluation find, and what is reported of them.
use vstd::prelude::*;

use crate::execution_general;
use crate::execution_general::GeneralSccSummary;
use crate::evaluation::StoreView;
use crate::pairs;
use crate::pairs::Pair;
use crate::printing;
use crate::recursion;
use crate::recursion::{IterationPolicies, IterationResult};
use crate::relational::{ProgramPlanView, SccPlanView, StratumPlanView};
use crate::rounds;
use crate::rounds::RelationPairs;
use crate::storage::RelationView;

verus! {

/// Whether each step of a walk is an edge, and there is at least one.
pub open spec fn is_walk(edge: Seq<Pair>, walk: Seq<u32>) -> bool {
    &&& walk.len() >= 2
    &&& forall|i: int|
        0 <= i < walk.len() - 1 ==> edge.contains((#[trigger] walk[i], walk[i + 1]))
}

/// Whether a walk leads from one vertex to another.
pub open spec fn is_connected(edge: Seq<Pair>, p: Pair) -> bool {
    exists|walk: Seq<u32>| #[trigger] is_walk(edge, walk) && walk[0] == p.0 && walk.last() == p.1
}

/// The join of paths: a path and an edge that starts where it ends give a longer path.
pub proof fn law_path_join(a: Pair, b: Pair, c: Pair)
    ensures
        rounds::joins_to(recursion::path_join(), a, b, c) <==> a.1 == b.0 && c.0 == a.0 && c.1
            == b.1,
{
}

/// When rounds that start with the edges find nothing new, exactly the vertices that a walk
/// connects are known as connected.
pub proof fn law_closure_is_connection(
    edge: Seq<Pair>,
    start: RelationPairs,
    count: nat,
    p: Pair,
)
    requires
        edge.len() <= u32::MAX,
        forall|q: Pair| #[trigger] start.full.contains(q) <==> edge.contains(q),
        forall|q: Pair| #[trigger] start.delta.contains(q) <==> edge.contains(q),
        rounds::closure_rounds(recursion::path_join(), edge, start, count).delta.len() == 0,
    ensures
        rounds::closure_rounds(recursion::path_join(), edge, start, count).full.contains(p)
            <==> is_connected(edge, p),
{
    let plan = recursion::path_join();
    let full = rounds::closure_rounds(plan, edge, start, count).full;
    let known = |q: Pair| is_connected(edge, q);
    assert forall|a: Pair, b: Pair, c: Pair| #[trigger]
        rounds::joins_to(plan, a, b, c) && known(a) && edge.contains(b) implies known(c) by {
        law_path_join(a, b, c);
        let walk = choose|walk: Seq<u32>| #[trigger]
            is_walk(edge, walk) && walk[0] == a.0 && walk.last() == a.1;
        let longer = walk.push(b.1);
        assert forall|i: int| 0 <= i < longer.len() - 1 implies edge.contains(
            (#[trigger] longer[i], longer[i + 1]),
        ) by {
            if i < walk.len() - 1 {
                assert(longer[i] == walk[i] && longer[i + 1] == walk[i + 1]);
                assert(edge.contains((walk[i], walk[i + 1])));
            } else {
                assert((longer[i], longer[i + 1]) == b);
            }
        }
        assert(is_walk(edge, longer));
    }
    assert forall|q: Pair| start.full.contains(q) implies known(q) by {
        assert(edge.contains(q));
        let walk = seq![q.0, q.1];
        assert forall|i: int| 0 <= i < walk.len() - 1 implies edge.contains(
            (#[trigger] walk[i], walk[i + 1]),
        ) by {
            assert((walk[i], walk[i + 1]) == q);
        }
        assert(is_walk(edge, walk));
    }
    assert(rounds::is_settled_but(plan, edge, start));
    rounds::law_rounds_reach_closure(plan, edge, start, count, known);
    assert(full.contains(p) ==> known(p));
    if is_connected(edge, p) {
        let walk = choose|walk: Seq<u32>| #[trigger]
            is_walk(edge, walk) && walk[0] == p.0 && walk.last() == p.1;
        assert forall|q: Pair| edge.contains(q) implies full.contains(q) by {
            assert(start.full.contains(q));
        }
        lemma_walk_is_held(edge, walk, full, walk.len() as int);
        assert(walk[walk.len() - 1] == p.1);
    }
}

proof fn lemma_walk_is_held(edge: Seq<Pair>, walk: Seq<u32>, full: Seq<Pair>, length: int)
    requires
        is_walk(edge, walk),
        2 <= length <= walk.len(),
        rounds::is_closed(recursion::path_join(), edge, |p: Pair| full.contains(p)),
        forall|q: Pair| edge.contains(q) ==> full.contains(q),
    ensures
        full.contains((walk[0], walk[length - 1])),
    decreases length,
{
    if length == 2 {
        assert(edge.contains((walk[0], walk[0int + 1])));
    } else {
        lemma_walk_is_held(edge, walk, full, length - 1);
        let a = (walk[0], walk[length - 2]);
        let b = (walk[length - 2], walk[(length - 2) + 1]);
        let c = (walk[0], walk[length - 1]);
        let held = |p: Pair| full.contains(p);
        assert(edge.contains(b));
        assert(rounds::joins_to(recursion::path_join(), a, b, c));
        assert(held(a));
        assert(held(c));
    }
}

/// How many tuples the first relations of a component have.
pub open spec fn tuple_total(scc: SccPlanView, store: StoreView, relations: nat) -> nat
    decreases relations,
{
    if relations == 0 {
        0
    } else {
        tuple_total(scc, store, (relations - 1) as nat)
            + store.full[scc.relations[relations - 1].0 as int].len()
    }
}

proof fn lemma_round_total(scc: SccPlanView, store: StoreView, relations: nat)
    requires
        store.full.len() == store.delta.len(),
        relations <= scc.relations.len(),
        forall|i: int|
            0 <= i < scc.relations.len() ==> (#[trigger] scc.relations[i]).0 < store.full.len(),
        forall|i: int|
            0 <= i < scc.relations.len() ==> (#[trigger] execution_general::advanced(
                scc,
                store,
            ).full[scc.relations[i].0 as int]).finite(),
    ensures
        tuple_total(scc, execution_general::advanced(scc, store), relations) == tuple_total(
            scc,
            store,
            relations,
        ) + execution_general::fresh_count(scc, store, relations),
    decreases relations,
{
    if relations > 0 {
        lemma_round_total(scc, store, (relations - 1) as nat);
        let id = scc.relations[relations - 1];
        let r = id.0 as int;
        let known = store.full[r];
        let fresh = execution_general::fresh(scc, store, id);
        let now = execution_general::advanced(scc, store).full[r];
        assert(scc.relations.contains(id));
        assert(now =~= known.union(fresh));
        assert(known.subset_of(now));
        assert(fresh.subset_of(now));
        vstd::set_lib::lemma_set_subset_finite(now, known);
        vstd::set_lib::lemma_set_subset_finite(now, fresh);
        vstd::set_lib::lemma_set_disjoint_lens(known, fresh);
    }
}

proof fn lemma_rounds_grow(scc: SccPlanView, start: StoreView, rounds: nat)
    ensures
        execution_general::iterated(scc, start, rounds).full.len() == start.full.len(),
        execution_general::iterated(scc, start, rounds).delta.len() == start.delta.len(),
    decreases rounds,
{
    if rounds > 0 {
        lemma_rounds_grow(scc, start, (rounds - 1) as nat);
    }
}

/// The tuples that rounds are said to add are those by which the relations of the component grow.
pub proof fn law_new_tuples_are_counted(scc: SccPlanView, start: StoreView, rounds: nat)
    requires
        start.full.len() == start.delta.len(),
        forall|i: int|
            0 <= i < scc.relations.len() ==> (#[trigger] scc.relations[i]).0 < start.full.len(),
        forall|i: int|
            0 <= i < scc.relations.len() ==> (#[trigger] execution_general::iterated(
                scc,
                start,
                rounds,
            ).full[scc.relations[i].0 as int]).finite(),
    ensures
        tuple_total(
            scc,
            execution_general::iterated(scc, start, rounds),
            scc.relations.len(),
        ) == tuple_total(scc, start, scc.relations.len()) + execution_general::new_tuples(
            scc,
            start,
            rounds,
        ),
    decreases rounds,
{
    if rounds > 0 {
        let before = execution_general::iterated(scc, start, (rounds - 1) as nat);
        let after = execution_general::iterated(scc, start, rounds);
        lemma_rounds_grow(scc, start, (rounds - 1) as nat);
        assert forall|i: int| 0 <= i < scc.relations.len() implies (
        #[trigger] before.full[scc.relations[i].0 as int]).finite() by {
            let r = scc.relations[i].0 as int;
            assert(after.full[r].finite());
            assert(before.full[r].subset_of(after.full[r]));
            vstd::set_lib::lemma_set_subset_finite(after.full[r], before.full[r]);
        }
        law_new_tuples_are_counted(scc, start, (rounds - 1) as nat);
        lemma_round_total(scc, before, scc.relations.len());
    }
}

/// A summary lists the relations of its component in order, each with the number of its tuples. A
/// component that is not recursive takes one round if it has clauses, else none, and counts no new
/// tuples.
pub proof fn law_summaries(
    summary: GeneralSccSummary,
    scc: SccPlanView,
    before: StoreView,
    after: StoreView,
)
    requires
        execution_general::summarizes(summary, scc, before, after),
    ensures
        summary.relations@.len() == scc.relations.len(),
        forall|i: int|
            0 <= i < scc.relations.len() ==> (#[trigger] summary.relations@[i]) == (
                scc.relations[i],
                after.full[scc.relations[i].0 as int].len() as usize,
            ),
        !scc.recursive ==> summary.new_rows == 0,
        !scc.recursive && scc.seeds.len() == 0 ==> summary.iterations == 0,
        !scc.recursive && scc.seeds.len() > 0 ==> summary.iterations == 1,
        scc.recursive ==> {
            let start = execution_general::started(scc, before);
            let added = execution_general::new_tuples(scc, start, summary.iterations as nat);
            &&& added <= usize::MAX ==> summary.new_rows == added
            &&& added > usize::MAX ==> summary.new_rows == usize::MAX
            &&& forall|n: nat, i: int|
                n == summary.iterations && 0 <= i < scc.relations.len()
                    ==> (#[trigger] execution_general::iterated(scc, start, n).delta[(
                #[trigger] scc.relations[i]).0 as int]) == Set::<Seq<u32>>::empty()
            &&& forall|n: nat|
                n < summary.iterations ==> exists|i: int|
                    0 <= i < scc.relations.len() && (#[trigger] execution_general::iterated(
                        scc,
                        start,
                        n,
                    )).delta[(#[trigger] scc.relations[i]).0 as int] != Set::<Seq<u32>>::empty()
        },
{
    if scc.recursive {
        let start = execution_general::started(scc, before);
        let rounds = summary.iterations as nat;
        assert(execution_general::settles_at(scc, start, rounds));
        assert forall|n: nat| n < summary.iterations implies exists|i: int|
            0 <= i < scc.relations.len() && (#[trigger] execution_general::iterated(
                scc,
                start,
                n,
            )).delta[(#[trigger] scc.relations[i]).0 as int] != Set::<Seq<u32>>::empty() by {
            assert(!execution_general::settled(
                scc,
                execution_general::iterated(scc, start, n),
            ));
        }
    }
}

/// The closure of an edge relation, when a round finds nothing new, holds exactly the vertices that
/// a walk along edges connects.
pub proof fn law_paths(edge: RelationView<'_>, seed: RelationView<'_>, count: nat, p: Pair)
    requires
        recursion::view_pairs(edge).len() <= u32::MAX,
        recursion::view_pairs(seed) == recursion::view_pairs(edge),
        recursion::path_rounds(seed, edge, seed, count).delta.len() == 0,
    ensures
        recursion::path_rounds(seed, edge, seed, count).full.contains(p) <==> is_connected(
            recursion::view_pairs(edge),
            p,
        ),
{
    let start = RelationPairs {
        full: recursion::view_pairs(seed),
        delta: recursion::view_pairs(seed),
    };
    law_closure_is_connection(recursion::view_pairs(edge), start, count, p);
}

/// The pairs of a relation are its first two columns, the first one first.
pub proof fn law_view_pairs(relation: RelationView<'_>, i: int)
    requires
        relation@[0].len() >= relation.rows(),
        relation@[1].len() >= relation.rows(),
        0 <= i < relation.rows(),
    ensures
        recursion::view_pairs(relation).len() == relation.rows(),
        recursion::view_pairs(relation)[i] == (relation@[0][i], relation@[1][i]),
{
}

/// What is reported of a round: how many paths and edges met, how many pairs that gave, how many of
/// them are new, and by how many the relation grew.
pub proof fn law_reported_rounds(
    edge: Seq<Pair>,
    before: RelationPairs,
    policies: IterationPolicies,
    done: IterationResult,
)
    requires
        recursion::is_round_result(edge, before, policies, done),
        pairs::pairs_ascending(before.full),
        edge.len() <= u32::MAX,
    ensures
        done.full_rows == before.full.len() + done.newt_rows,
        ({
            let new = rounds::rule_new(
                recursion::path_join(),
                before.delta,
                edge,
                before.full,
            );
            &&& done.newt_rows == new.len()
            &&& forall|c: Pair| #[trigger]
                new.contains(c) <==> !before.full.contains(c) && exists|a: Pair, b: Pair|
                    #![trigger before.delta.contains(a), edge.contains(b)]
                    before.delta.contains(a) && edge.contains(b) && a.1 == b.0 && c == (a.0, b.1)
        }),
{
    let plan = recursion::path_join();
    let joined = rounds::pair_join(plan, before.delta, edge, before.delta.len() as int);
    let unique = rounds::distinct_list(joined);
    let new = rounds::rule_new(plan, before.delta, edge, before.full);
    let all = rounds::with_new(before.full, new);
    rounds::law_distinct_list(joined);
    rounds::law_distinct_list(before.full + new);
    assert(pairs::is_union(all, before.full, new));
    rounds::law_difference_and_union(before.full, unique, all);
    rounds::law_rule_new(plan, before.delta, edge, before.full);
    assert forall|c: Pair| #[trigger] new.contains(c) <==> !before.full.contains(c) && exists|
        a: Pair,
        b: Pair,
    |
        #![trigger before.delta.contains(a), edge.contains(b)]
        before.delta.contains(a) && edge.contains(b) && a.1 == b.0 && c == (a.0, b.1) by {
        if rounds::some_join(plan, before.delta, edge, c) {
            let (a, b) = choose|a: Pair, b: Pair| #[trigger]
                rounds::joins_to(plan, a, b, c) && before.delta.contains(a) && edge.contains(b);
            law_path_join(a, b, c);
            assert(before.delta.contains(a) && edge.contains(b));
        }
        if exists|a: Pair, b: Pair|
            #![trigger before.delta.contains(a), edge.contains(b)]
            before.delta.contains(a) && edge.contains(b) && a.1 == b.0 && c == (a.0, b.1) {
            let (a, b) = choose|a: Pair, b: Pair|
                #![trigger before.delta.contains(a), edge.contains(b)]
                before.delta.contains(a) && edge.contains(b) && a.1 == b.0 && c == (a.0, b.1);
            law_path_join(a, b, c);
            assert(rounds::joins_to(plan, a, b, c));
        }
    }
}

/// The rounds that a run reports are those of all its components together.
pub proof fn law_reported_totals(sccs: Seq<GeneralSccSummary>, scc: GeneralSccSummary)
    ensures
        printing::round_total(Seq::empty()) == 0,
        printing::round_total(sccs.push(scc)) == printing::round_total(sccs) + scc.iterations,
        forall|total: nat|
            total <= usize::MAX ==> #[trigger] execution_general::capped(total) == total,
        forall|total: nat|
            total > usize::MAX ==> #[trigger] execution_general::capped(total) == usize::MAX,
{
    assert(sccs.push(scc).drop_last() =~= sccs);
}

/// A run reports on each component of its plan, stratum by stratum, by what was there before it and
/// after it.
pub proof fn law_reports(
    plan: ProgramPlanView,
    limit: usize,
    summaries: Seq<GeneralSccSummary>,
    j: int,
)
    requires
        execution_general::summarized(plan, limit, summaries),
    ensures
        ({
            let sccs = execution_general::all_sccs(plan.strata);
            let start = execution_general::fact_store(plan.predicate_count as nat, plan.facts);
            &&& summaries.len() == sccs.len()
            &&& 0 <= j < sccs.len() ==> {
                let before = execution_general::run_sccs(sccs.take(j), start, limit);
                let after = execution_general::run_sccs(sccs.take(j + 1), start, limit);
                &&& before is Some && after is Some
                &&& execution_general::summarizes(summaries[j], sccs[j], before->0, after->0)
            }
        }),
{
    if 0 <= j < execution_general::all_sccs(plan.strata).len() {
        assert(execution_general::summary_at(
            execution_general::all_sccs(plan.strata),
            execution_general::fact_store(plan.predicate_count as nat, plan.facts),
            limit,
            summaries,
            j,
        ));
    }
}

/// The components of a plan are those of its strata in order, and they are evaluated one after the
/// other, from the facts on.
pub proof fn law_evaluation_order(
    strata: Seq<StratumPlanView>,
    stratum: StratumPlanView,
    sccs: Seq<SccPlanView>,
    scc: SccPlanView,
    start: StoreView,
    limit: usize,
)
    ensures
        execution_general::all_sccs(Seq::empty()).len() == 0,
        execution_general::all_sccs(strata.push(stratum)) == execution_general::all_sccs(strata)
            + stratum.sccs,
        execution_general::run_sccs(Seq::empty(), start, limit) == Some(start),
        execution_general::run_sccs(sccs.push(scc), start, limit)
            == match execution_general::run_sccs(sccs, start, limit) {
            None => None,
            Some(store) => execution_general::run_scc(scc, store, limit),
        },
{
    assert(strata.push(stratum).drop_last() =~= strata);
    assert(sccs.push(scc).drop_last() =~= sccs);
}

} // verus!
