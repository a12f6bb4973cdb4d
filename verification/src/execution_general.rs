//! Semi-naive evaluation of whole programs, one strongly connected component after another.
use vstd::prelude::*;

use crate::ast;
use crate::evaluation;
use crate::evaluation::{evaluate_clause, StoreView, TupleStore};
use crate::relational::{
    ClauseView, GeneralProgramPlan, GeneralSccPlan, ProgramPlanView, RelationId,
    RelationalClausePlan, SccPlanView, StratumPlanView,
};
use crate::text;
use crate::text::decimal_text;
use crate::tuples::{copy_tuple, TupleSet};

verus! {

/// The store after the seed clauses of a component.
pub open spec fn seeded(scc: SccPlanView, store: StoreView) -> StoreView {
    StoreView {
        full: Seq::new(
            store.full.len(),
            |r: int| store.full[r].union(evaluation::derived(scc.seeds, store, RelationId(r as u32))),
        ),
        delta: store.delta,
    }
}

/// The store before the first round of a recursive component: everything known is new.
pub open spec fn started(scc: SccPlanView, store: StoreView) -> StoreView {
    let base = seeded(scc, store);
    StoreView {
        full: base.full,
        delta: Seq::new(
            base.delta.len(),
            |r: int|
                if scc.relations.contains(RelationId(r as u32)) {
                    base.full[r]
                } else {
                    base.delta[r]
                },
        ),
    }
}

/// The tuples that one round adds to a relation.
pub open spec fn fresh(scc: SccPlanView, store: StoreView, relation: RelationId) -> Set<Seq<u32>> {
    evaluation::derived(scc.recursive_variants, store, relation).difference(store.full[relation.0 as int])
}

/// The store after one round.
pub open spec fn advanced(scc: SccPlanView, store: StoreView) -> StoreView {
    StoreView {
        full: Seq::new(
            store.full.len(),
            |r: int|
                if scc.relations.contains(RelationId(r as u32)) {
                    store.full[r].union(fresh(scc, store, RelationId(r as u32)))
                } else {
                    store.full[r]
                },
        ),
        delta: Seq::new(
            store.delta.len(),
            |r: int|
                if scc.relations.contains(RelationId(r as u32)) {
                    fresh(scc, store, RelationId(r as u32))
                } else {
                    store.delta[r]
                },
        ),
    }
}

/// The store after a number of rounds.
pub open spec fn iterated(scc: SccPlanView, store: StoreView, rounds: nat) -> StoreView
    decreases rounds,
{
    if rounds == 0 {
        store
    } else {
        advanced(scc, iterated(scc, store, (rounds - 1) as nat))
    }
}

/// Whether no relation of a component has new tuples.
pub open spec fn settled(scc: SccPlanView, store: StoreView) -> bool {
    forall|i: int|
        0 <= i < scc.relations.len() ==> store.delta[(#[trigger] scc.relations[i]).0 as int]
            == Set::<Seq<u32>>::empty()
}

/// Whether a component settles after exactly a number of rounds.
pub open spec fn settles_at(scc: SccPlanView, store: StoreView, rounds: nat) -> bool {
    &&& settled(scc, iterated(scc, store, rounds))
    &&& forall|n: nat| n < rounds ==> !settled(scc, #[trigger] iterated(scc, store, n))
}

/// The number of tuples that one round adds to the first relations of a component.
pub open spec fn fresh_count(scc: SccPlanView, store: StoreView, relations: nat) -> nat
    decreases relations,
{
    if relations == 0 {
        0
    } else {
        fresh_count(scc, store, (relations - 1) as nat) + fresh(
            scc,
            store,
            scc.relations[relations - 1],
        ).len()
    }
}

/// The number of tuples that a number of rounds adds.
pub open spec fn new_tuples(scc: SccPlanView, store: StoreView, rounds: nat) -> nat
    decreases rounds,
{
    if rounds == 0 {
        0
    } else {
        new_tuples(scc, store, (rounds - 1) as nat) + fresh_count(
            scc,
            iterated(scc, store, (rounds - 1) as nat),
            scc.relations.len(),
        )
    }
}

/// A count, as far as a machine word can hold it.
pub open spec fn capped(count: nat) -> usize {
    if count <= usize::MAX {
        count as usize
    } else {
        usize::MAX
    }
}

/// What evaluating a component did.
#[derive(Debug, Clone, PartialEq, Eq)]
pub struct GeneralSccSummary {
    pub relations: Vec<(RelationId, usize)>,
    pub iterations: usize,
    pub new_rows: usize,
}

/// A finished evaluation.
#[derive(Debug, Clone, PartialEq, Eq)]
pub struct GeneralExecution {
    pub store: TupleStore,
    pub summaries: Vec<GeneralSccSummary>,
}

#[derive(Debug, Clone, Copy, PartialEq, Eq, Structural)]
pub enum GeneralExecutionError {
    IterationLimit { limit: usize },
}

impl GeneralExecutionError {
    /// What the error says.
    pub open spec fn text(self) -> Seq<char> {
        match self {
            GeneralExecutionError::IterationLimit { limit } => "fixpoint did not converge within "@
                + text::decimal(limit as nat) + " iterations"@,
        }
    }

    pub fn message(&self) -> (message: String)
        ensures
            message@ == self.text(),
    {
        match self {
            GeneralExecutionError::IterationLimit { limit } => {
                let mut message = "fixpoint did not converge within ".to_owned();
                let limit = decimal_text(*limit);
                message.append(limit.as_str());
                message.append(" iterations");
                message
            },
        }
    }
}

/// The number of rounds after which a component settles.
pub open spec fn settling_round(scc: SccPlanView, store: StoreView) -> nat {
    choose|n: nat| settles_at(scc, store, n)
}

/// The store after a component, unless it takes more than `limit` rounds.
pub open spec fn run_scc(scc: SccPlanView, store: StoreView, limit: usize) -> Option<StoreView> {
    if !scc.recursive {
        Some(seeded(scc, store))
    } else {
        let start = started(scc, store);
        if exists|n: nat| n <= limit && #[trigger] settles_at(scc, start, n) {
            Some(iterated(scc, start, settling_round(scc, start)))
        } else {
            None
        }
    }
}

/// The store after components in order, unless one takes more than `limit` rounds.
pub open spec fn run_sccs(
    sccs: Seq<SccPlanView>,
    store: StoreView,
    limit: usize,
) -> Option<StoreView>
    decreases sccs.len(),
{
    if sccs.len() == 0 {
        Some(store)
    } else {
        match run_sccs(sccs.drop_last(), store, limit) {
            Some(earlier) => run_scc(sccs.last(), earlier, limit),
            None => None,
        }
    }
}

/// The components of all strata, in order.
pub open spec fn all_sccs(strata: Seq<StratumPlanView>) -> Seq<SccPlanView>
    decreases strata.len(),
{
    if strata.len() == 0 {
        Seq::empty()
    } else {
        all_sccs(strata.drop_last()) + strata.last().sccs
    }
}

/// The store that holds exactly some facts.
pub open spec fn fact_store(count: nat, facts: Seq<(RelationId, Seq<u32>)>) -> StoreView {
    StoreView {
        full: Seq::new(
            count,
            |r: int| Set::new(|t: Seq<u32>| facts.contains((RelationId(r as u32), t))),
        ),
        delta: Seq::new(count, |r: int| Set::empty()),
    }
}

/// The store after a whole program, unless a component takes more than `limit` rounds.
pub open spec fn run_program(plan: ProgramPlanView, limit: usize) -> Option<StoreView> {
    run_sccs(
        all_sccs(plan.strata),
        fact_store(plan.predicate_count as nat, plan.facts),
        limit,
    )
}

/// Whether a summary describes the evaluation of a component that left a store.
pub open spec fn summarizes(
    summary: GeneralSccSummary,
    scc: SccPlanView,
    before: StoreView,
    after: StoreView,
) -> bool {
    &&& summary.relations@.len() == scc.relations.len()
    &&& forall|i: int|
        0 <= i < scc.relations.len() ==> {
            &&& (#[trigger] summary.relations@[i]).0 == scc.relations[i]
            &&& summary.relations@[i].1 == after.full[scc.relations[i].0 as int].len()
        }
    &&& if scc.recursive {
        let start = started(scc, before);
        &&& settles_at(scc, start, summary.iterations as nat)
        &&& summary.new_rows == capped(new_tuples(scc, start, summary.iterations as nat))
    } else {
        &&& summary.iterations == if scc.seeds.len() > 0 {
            1usize
        } else {
            0usize
        }
        &&& summary.new_rows == 0
    }
}

/// Whether a component plan can be evaluated on a store with `count` relations.
pub open spec fn scc_valid(scc: SccPlanView, count: int) -> bool {
    &&& count <= u32::MAX + 1
    &&& scc.relations.no_duplicates()
    &&& forall|i: int| 0 <= i < scc.relations.len() ==> (#[trigger] scc.relations[i]).0 < count
    &&& forall|c: int| 0 <= c < scc.seeds.len() ==> evaluation::clause_valid(#[trigger] scc.seeds[c], count)
    &&& forall|c: int|
        0 <= c < scc.recursive_variants.len() ==> {
            &&& evaluation::clause_valid(#[trigger] scc.recursive_variants[c], count)
            &&& scc.relations.contains(scc.recursive_variants[c].target)
        }
}

/// Whether a program plan can be evaluated: every relation is counted, every clause is valid.
pub open spec fn plan_valid(plan: ProgramPlanView) -> bool {
    &&& plan.predicate_count <= u32::MAX + 1
    &&& forall|i: int|
        0 <= i < plan.facts.len() ==> (#[trigger] plan.facts[i]).0.0 < plan.predicate_count
    &&& forall|i: int, j: int|
        #![trigger plan.strata[i].sccs[j]]
        0 <= i < plan.strata.len() && 0 <= j < plan.strata[i].sccs.len() ==> scc_valid(
            plan.strata[i].sccs[j],
            plan.predicate_count as int,
        )
}

/// Whether a clause derives a relation.
spec fn is_target(clauses: Seq<ClauseView>, relation: RelationId) -> bool {
    exists|c: int| 0 <= c < clauses.len() && (#[trigger] clauses[c]).target == relation
}

/// Whether there is an entry for a relation.
spec fn has_entry(entries: Seq<(RelationId, TupleSet)>, relation: RelationId) -> bool {
    exists|i: int| 0 <= i < entries.len() && (#[trigger] entries[i]).0 == relation
}

/// Whether entries hold, once for each target, what clauses derive.
spec fn are_contributions(
    entries: Seq<(RelationId, TupleSet)>,
    clauses: Seq<ClauseView>,
    store: StoreView,
) -> bool {
    &&& forall|i: int|
        0 <= i < entries.len() ==> {
            &&& (#[trigger] entries[i]).1.wf()
            &&& entries[i].1@ == evaluation::derived(clauses, store, entries[i].0)
            &&& is_target(clauses, entries[i].0)
        }
    &&& forall|i: int, j: int|
        #![trigger entries[i], entries[j]]
        0 <= i < j < entries.len() ==> entries[i].0 != entries[j].0
    &&& forall|c: int|
        0 <= c < clauses.len() ==> has_entry(entries, (#[trigger] clauses[c]).target)
}

/// One more clause keeps targets.
proof fn lemma_target_push(clauses: Seq<ClauseView>, clause: ClauseView, relation: RelationId)
    ensures
        is_target(clauses, relation) ==> is_target(clauses.push(clause), relation),
        is_target(clauses.push(clause), clause.target),
{
    let wider = clauses.push(clause);
    assert(wider[clauses.len() as int].target == clause.target);
    if is_target(clauses, relation) {
        let c = choose|c: int| 0 <= c < clauses.len() && (#[trigger] clauses[c]).target == relation;
        assert(wider[c].target == relation);
    }
}

proof fn lemma_derived_push(
    clauses: Seq<ClauseView>,
    clause: ClauseView,
    store: StoreView,
    relation: RelationId,
)
    ensures
        clause.target == relation ==> evaluation::derived(clauses.push(clause), store, relation) == evaluation::derived(
            clauses,
            store,
            relation,
        ).union(evaluation::clause_result(clause, store)),
        clause.target != relation ==> evaluation::derived(clauses.push(clause), store, relation) == evaluation::derived(
            clauses,
            store,
            relation,
        ),
{
    let longer = clauses.push(clause);
    let small = evaluation::derived(clauses, store, relation);
    let large = evaluation::derived(longer, store, relation);
    assert forall|t: Seq<u32>| #[trigger] large.contains(t) <==> (small.contains(t) || (
    clause.target == relation && evaluation::clause_result(clause, store).contains(t))) by {
        if large.contains(t) {
            let c = choose|c: int|
                0 <= c < longer.len() && (#[trigger] longer[c]).target == relation && evaluation::clause_result(
                    longer[c],
                    store,
                ).contains(t);
            if c < clauses.len() {
                assert(clauses[c] == longer[c]);
            }
        }
        if small.contains(t) {
            let c = choose|c: int|
                0 <= c < clauses.len() && (#[trigger] clauses[c]).target == relation
                    && evaluation::clause_result(clauses[c], store).contains(t);
            assert(longer[c] == clauses[c]);
        }
        assert(longer[clauses.len() as int] == clause);
    }
    if clause.target == relation {
        assert(large =~= small.union(evaluation::clause_result(clause, store)));
    } else {
        assert(large =~= small);
    }
}

proof fn lemma_contribution_extended(
    before: Seq<(RelationId, TupleSet)>,
    after: Seq<(RelationId, TupleSet)>,
    i: int,
    seen: Seq<ClauseView>,
    clause: ClauseView,
    store: StoreView,
)
    requires
        are_contributions(before, seen, store),
        0 <= i < before.len(),
        before[i].0 == clause.target,
        after.len() == before.len(),
        after[i].0 == before[i].0,
        after[i].1.wf(),
        after[i].1@ == before[i].1@.union(evaluation::clause_result(clause, store)),
        forall|j: int| 0 <= j < after.len() && j != i ==> #[trigger] after[j] == before[j],
    ensures
        are_contributions(after, seen.push(clause), store),
{
    let wider = seen.push(clause);
    assert forall|j: int| 0 <= j < after.len() implies {
        &&& (#[trigger] after[j]).1.wf()
        &&& after[j].1@ == evaluation::derived(wider, store, after[j].0)
        &&& is_target(wider, after[j].0)
    } by {
        assert(before[j].1.wf());
        assert(after[j].0 == before[j].0);
        lemma_derived_push(seen, clause, store, after[j].0);
        lemma_target_push(seen, clause, after[j].0);
        if j != i {
            assert(after[j] == before[j]);
            assert(before[j].0 != before[i].0);
        }
    }
    assert forall|c: int| 0 <= c < wider.len() implies has_entry(
        after,
        (#[trigger] wider[c]).target,
    ) by {
        if c < seen.len() {
            assert(seen[c] == wider[c]);
            let j = choose|j: int|
                0 <= j < before.len() && (#[trigger] before[j]).0 == seen[c].target;
            assert(after[j].0 == wider[c].target);
        } else {
            assert(after[i].0 == wider[c].target);
        }
    }
    assert forall|a: int, b: int|
        #![trigger after[a], after[b]]
        0 <= a < b < after.len() implies after[a].0 != after[b].0 by {
        assert(before[a].0 != before[b].0);
    }
}

proof fn lemma_contribution_added(
    before: Seq<(RelationId, TupleSet)>,
    after: Seq<(RelationId, TupleSet)>,
    seen: Seq<ClauseView>,
    clause: ClauseView,
    store: StoreView,
)
    requires
        are_contributions(before, seen, store),
        forall|j: int| 0 <= j < before.len() ==> (#[trigger] before[j]).0 != clause.target,
        after.len() == before.len() + 1,
        after[before.len() as int].0 == clause.target,
        after[before.len() as int].1.wf(),
        after[before.len() as int].1@ == evaluation::clause_result(clause, store),
        forall|j: int| 0 <= j < before.len() ==> #[trigger] after[j] == before[j],
    ensures
        are_contributions(after, seen.push(clause), store),
{
    let wider = seen.push(clause);
    let last = before.len() as int;
    assert forall|j: int| 0 <= j < after.len() implies {
        &&& (#[trigger] after[j]).1.wf()
        &&& after[j].1@ == evaluation::derived(wider, store, after[j].0)
        &&& is_target(wider, after[j].0)
    } by {
        lemma_derived_push(seen, clause, store, after[j].0);
        lemma_target_push(seen, clause, after[j].0);
        if j < last {
            assert(after[j] == before[j]);
            assert(before[j].1.wf());
            assert(before[j].0 != clause.target);
        } else {
            lemma_no_contribution(before, seen, store, clause.target);
            assert(Set::<Seq<u32>>::empty().union(evaluation::clause_result(clause, store))
                =~= evaluation::clause_result(clause, store));
        }
    }
    assert forall|c: int| 0 <= c < wider.len() implies has_entry(
        after,
        (#[trigger] wider[c]).target,
    ) by {
        if c < seen.len() {
            assert(seen[c] == wider[c]);
            let j = choose|j: int|
                0 <= j < before.len() && (#[trigger] before[j]).0 == seen[c].target;
            assert(after[j].0 == wider[c].target);
        } else {
            assert(after[last].0 == wider[c].target);
        }
    }
    assert forall|a: int, b: int|
        #![trigger after[a], after[b]]
        0 <= a < b < after.len() implies after[a].0 != after[b].0 by {
        assert(after[a] == before[a]);
        if b < last {
            assert(after[b] == before[b]);
            assert(before[a].0 != before[b].0);
        } else {
            assert(before[a].0 != clause.target);
        }
    }
}

/// What clauses derive, gathered by target relation.
fn evaluate_clauses(
    clauses: &Vec<RelationalClausePlan>,
    store: &TupleStore,
) -> (contributions: Vec<(RelationId, TupleSet)>)
    requires
        store.wf(),
        forall|c: int|
            0 <= c < clauses@.len() ==> evaluation::clause_valid(
                #[trigger] ast::views(clauses@)[c],
                store@.full.len() as int,
            ),
    ensures
        are_contributions(contributions@, ast::views(clauses@), store@),
{
    let mut contributions: Vec<(RelationId, TupleSet)> = Vec::new();
    let ghost all = ast::views(clauses@);
    let mut k: usize = 0;
    while k < clauses.len()
        invariant
            k <= clauses@.len(),
            all == ast::views(clauses@),
            store.wf(),
            forall|c: int|
                0 <= c < clauses@.len() ==> evaluation::clause_valid(
                    #[trigger] all[c],
                    store@.full.len() as int,
                ),
            are_contributions(contributions@, all.take(k as int), store@),
        decreases clauses@.len() - k,
    {
        let clause = &clauses[k];
        assert(all[k as int] == clause@);
        let tuples = evaluate_clause(clause, store);
        let ghost before = contributions@;
        let ghost seen = all.take(k as int);
        let ghost wider = all.take(k + 1);
        assert(wider =~= seen.push(clause@));
        let mut i: usize = 0;
        while i < contributions.len() && contributions[i].0 != clause.target
            invariant
                i <= contributions@.len(),
                forall|j: int|
                    0 <= j < i ==> (#[trigger] contributions@[j]).0 != clause.target,
            decreases contributions@.len() - i,
        {
            i += 1;
        }
        if i < contributions.len() {
            contributions[i].1.extend(&tuples);
            proof {
                lemma_contribution_extended(
                    before,
                    contributions@,
                    i as int,
                    seen,
                    clause@,
                    store@,
                );
            }
        } else {
            contributions.push((clause.target, tuples));
            proof {
                lemma_contribution_added(before, contributions@, seen, clause@, store@);
            }
        }
        k += 1;
    }
    assert(all.take(all.len() as int) =~= all);
    contributions
}

/// The position of the contribution to a relation.
fn find_contribution(
    entries: &Vec<(RelationId, TupleSet)>,
    relation: RelationId,
) -> (found: Option<usize>)
    ensures
        found matches Some(i) ==> i < entries@.len() && entries@[i as int].0 == relation,
        found is None ==> forall|i: int|
            0 <= i < entries@.len() ==> (#[trigger] entries@[i]).0 != relation,
{
    let mut i: usize = 0;
    while i < entries.len()
        invariant
            i <= entries@.len(),
            forall|j: int| 0 <= j < i ==> (#[trigger] entries@[j]).0 != relation,
        decreases entries@.len() - i,
    {
        if entries[i].0 == relation {
            return Some(i);
        }
        i += 1;
    }
    None
}

proof fn lemma_no_contribution(
    entries: Seq<(RelationId, TupleSet)>,
    clauses: Seq<ClauseView>,
    store: StoreView,
    relation: RelationId,
)
    requires
        are_contributions(entries, clauses, store),
        forall|i: int| 0 <= i < entries.len() ==> (#[trigger] entries[i]).0 != relation,
    ensures
        evaluation::derived(clauses, store, relation) == Set::<Seq<u32>>::empty(),
{
    assert forall|t: Seq<u32>| !#[trigger] evaluation::derived(clauses, store, relation).contains(t) by {
        if evaluation::derived(clauses, store, relation).contains(t) {
            let c = choose|c: int|
                0 <= c < clauses.len() && (#[trigger] clauses[c]).target == relation
                    && evaluation::clause_result(clauses[c], store).contains(t);
            let i = choose|i: int|
                0 <= i < entries.len() && (#[trigger] entries[i]).0 == clauses[c].target;
            assert(entries[i].0 != relation);
        }
    }
    assert(evaluation::derived(clauses, store, relation) =~= Set::empty());
}

/// The tuples of a set that a relation of the store does not hold yet.
fn unseen(tuples: &TupleSet, store: &TupleStore, relation: RelationId) -> (new: TupleSet)
    requires
        tuples.wf(),
        store.wf(),
        (relation.0 as int) < store@.full.len(),
    ensures
        new.wf(),
        new@ == tuples@.difference(store@.full[relation.0 as int]),
{
    let mut new = TupleSet::new();
    let all = tuples.as_slice();
    let known = match store.rows(relation) {
        Some(rows) => rows,
        None => tuples,
    };
    proof {
        tuples.lemma_listed();
    }
    let ghost listed = tuples.listed();
    let mut i: usize = 0;
    assert(listed.take(0).to_set().difference(known@) =~= Set::empty());
    while i < all.len()
        invariant
            i <= all@.len(),
            known.wf(),
            ast::views(all@) == listed,
            new.wf(),
            new@ == listed.take(i as int).to_set().difference(known@),
        decreases all@.len() - i,
    {
        assert(listed[i as int] == all@[i as int]@);
        proof {
            let seen = listed.take(i as int);
            assert(listed.take(i + 1) =~= seen.push(listed[i as int]));
            seen.lemma_push_to_set_commute(listed[i as int]);
            if known@.contains(listed[i as int]) {
                assert(seen.to_set().insert(listed[i as int]).difference(known@)
                    =~= seen.to_set().difference(known@));
            } else {
                assert(seen.to_set().insert(listed[i as int]).difference(known@)
                    =~= seen.to_set().difference(known@).insert(listed[i as int]));
            }
        }
        if !known.contains(&all[i]) {
            new.insert(copy_tuple(&all[i]));
        }
        i += 1;
    }
    assert(listed.take(listed.len() as int) =~= listed);
    new
}

/// Whether a relation is the target of one of the first entries.
spec fn targeted(entries: Seq<(RelationId, TupleSet)>, count: int, relation: int) -> bool {
    exists|j: int| 0 <= j < count && (#[trigger] entries[j]).0.0 == relation
}

/// Runs the seed clauses of a component.
#[verifier::rlimit(40)]
fn seed_scc(scc: &GeneralSccPlan, store: &mut TupleStore)
    requires
        old(store).wf(),
        scc_valid(scc@, old(store)@.full.len() as int),
    ensures
        final(store).wf(),
        final(store)@ == seeded(scc@, old(store)@),
{
    let ghost start = store@;
    let ghost clauses = ast::views(scc.seeds@);
    assert(scc@.seeds == clauses);
    let contributions = evaluate_clauses(&scc.seeds, store);
    let ghost entries = contributions@;
    let mut i: usize = 0;
    while i < contributions.len()
        invariant
            i <= contributions@.len(),
            entries == contributions@,
            clauses == scc@.seeds,
            scc_valid(scc@, start.full.len() as int),
            are_contributions(entries, clauses, start),
            store.wf(),
            store@.full.len() == start.full.len(),
            store@.delta == start.delta,
            forall|r: int|
                0 <= r < start.full.len() ==> #[trigger] store@.full[r] == if targeted(
                    entries,
                    i as int,
                    r,
                ) {
                    start.full[r].union(evaluation::derived(clauses, start, RelationId(r as u32)))
                } else {
                    start.full[r]
                },
        decreases contributions@.len() - i,
    {
        let target = contributions[i].0;
        let ghost before = store@;
        proof {
            let c = choose|c: int|
                0 <= c < clauses.len() && (#[trigger] clauses[c]).target == entries[i as int].0;
            assert(evaluation::clause_valid(scc@.seeds[c], start.full.len() as int));
        }
        assert(entries[i as int].1.wf());
        store.add_all(target, &contributions[i].1);
        proof {
            assert forall|r: int| 0 <= r < start.full.len() implies #[trigger] store@.full[r]
                == if targeted(entries, i + 1, r) {
                start.full[r].union(evaluation::derived(clauses, start, RelationId(r as u32)))
            } else {
                start.full[r]
            } by {
                if r == target.0 {
                    if targeted(entries, i as int, r) {
                        let j = choose|j: int|
                            0 <= j < i && (#[trigger] entries[j]).0.0 == r;
                        assert(entries[j].0 == entries[i as int].0);
                        assert(false);
                    }
                    assert(entries[i as int].0.0 == r);
                    assert(targeted(entries, i + 1, r));
                    assert(RelationId(r as u32) == target);
                } else {
                    assert(store@.full[r] == before.full[r]);
                    if targeted(entries, i + 1, r) {
                        let j = choose|j: int|
                            0 <= j < i + 1 && (#[trigger] entries[j]).0.0 == r;
                        assert(j < i);
                        assert(targeted(entries, i as int, r));
                    }
                    if targeted(entries, i as int, r) {
                        let j = choose|j: int|
                            0 <= j < i && (#[trigger] entries[j]).0.0 == r;
                        assert(entries[j].0.0 == r);
                    }
                }
            }
        }
        i += 1;
    }
    proof {
        assert forall|r: int| 0 <= r < start.full.len() implies #[trigger] store@.full[r]
            == seeded(scc@, start).full[r] by {
            let relation = RelationId(r as u32);
            if !targeted(entries, entries.len() as int, r) {
                assert forall|j: int| 0 <= j < entries.len() implies (#[trigger] entries[j]).0
                    != relation by {
                    assert(entries[j].0.0 != r);
                }
                lemma_no_contribution(entries, clauses, start, relation);
                assert(start.full[r].union(Set::empty()) =~= start.full[r]);
            }
        }
        assert(store@ =~= seeded(scc@, start));
    }
}

/// A sum, as far as a machine word can hold it.
fn capped_sum(total: usize, more: usize) -> (sum: usize)
    ensures
        forall|count: nat|
            #![trigger capped(count)]
            total == capped(count) ==> sum == capped(count + more as nat),
{
    total.saturating_add(more)
}

/// Runs one round of a component and counts the tuples that it adds.
fn advance_scc(scc: &GeneralSccPlan, store: &mut TupleStore, total: usize) -> (sum: usize)
    requires
        old(store).wf(),
        scc_valid(scc@, old(store)@.full.len() as int),
    ensures
        final(store).wf(),
        final(store)@ == advanced(scc@, old(store)@),
        forall|count: nat|
            #![trigger capped(count)]
            total == capped(count) ==> sum == capped(
                count + fresh_count(scc@, old(store)@, scc@.relations.len()),
            ),
{
    let ghost start = store@;
    let ghost clauses = ast::views(scc.recursive_variants@);
    let contributions = evaluate_clauses(&scc.recursive_variants, store);
    let ghost entries = contributions@;
    let mut sum: usize = total;
    let mut i: usize = 0;
    proof {
        store.lemma_wf();
    }
    while i < scc.relations.len()
        invariant
            i <= scc.relations@.len(),
            entries == contributions@,
            clauses == scc@.recursive_variants,
            scc_valid(scc@, start.full.len() as int),
            are_contributions(entries, clauses, start),
            store.wf(),
            start.full.len() == start.delta.len(),
            store@.full.len() == start.full.len(),
            store@.delta.len() == start.delta.len(),
            forall|r: int|
                0 <= r < start.full.len() ==> {
                    &&& #[trigger] store@.full[r] == if scc@.relations.take(i as int).contains(
                        RelationId(r as u32),
                    ) {
                        start.full[r].union(fresh(scc@, start, RelationId(r as u32)))
                    } else {
                        start.full[r]
                    }
                    &&& store@.delta[r] == if scc@.relations.take(i as int).contains(
                        RelationId(r as u32),
                    ) {
                        fresh(scc@, start, RelationId(r as u32))
                    } else {
                        start.delta[r]
                    }
                },
            forall|count: nat|
                #![trigger capped(count)]
                total == capped(count) ==> sum == capped(
                    count + fresh_count(scc@, start, i as nat),
                ),
        decreases scc.relations@.len() - i,
    {
        let relation = scc.relations[i];
        let ghost at = relation.0 as int;
        let ghost before = store@;
        let ghost prefix = scc@.relations.take(i as int);
        assert(scc@.relations[i as int] == relation);
        assert(!prefix.contains(relation)) by {
            if prefix.contains(relation) {
                let j = choose|j: int| 0 <= j < prefix.len() && prefix[j] == relation;
                assert(scc@.relations[j] == relation);
            }
        }
        assert(RelationId(at as u32) == relation);
        assert(store@.full[at] == start.full[at]);
        let new = match find_contribution(&contributions, relation) {
            Some(k) => {
                assert(entries[k as int].1.wf());
                unseen(&contributions[k].1, store, relation)
            },
            None => {
                proof {
                    lemma_no_contribution(entries, clauses, start, relation);
                    assert(Set::<Seq<u32>>::empty().difference(start.full[at]) =~= Set::empty());
                }
                TupleSet::new()
            },
        };
        assert(new@ == fresh(scc@, start, relation));
        let ghost added = new@;
        let ghost sum_before = sum;
        sum = capped_sum(sum, new.len());
        proof {
            assert forall|count: nat|
                #![trigger capped(count)]
                total == capped(count) implies sum == capped(
                count + fresh_count(scc@, start, (i + 1) as nat),
            ) by {
                let partial = count + fresh_count(scc@, start, i as nat);
                assert(sum_before == capped(partial));
                assert(sum == capped(partial + added.len()));
            }
        }
        store.add_all(relation, &new);
        store.set_delta(relation, new);
        proof {
            let longer = scc@.relations.take(i + 1);
            assert(longer =~= prefix.push(relation));
            assert forall|r: int| 0 <= r < start.full.len() implies {
                &&& #[trigger] store@.full[r] == if longer.contains(RelationId(r as u32)) {
                    start.full[r].union(fresh(scc@, start, RelationId(r as u32)))
                } else {
                    start.full[r]
                }
                &&& store@.delta[r] == if longer.contains(RelationId(r as u32)) {
                    fresh(scc@, start, RelationId(r as u32))
                } else {
                    start.delta[r]
                }
            } by {
                let id = RelationId(r as u32);
                vstd::seq_lib::lemma_seq_contains_after_push(prefix, relation, id);
                if longer.contains(id) && id != relation {
                    let j = choose|j: int| 0 <= j < longer.len() && longer[j] == id;
                    assert(prefix[j] == id);
                }
                assert(before.full[r] == before.full[r]);
                if r != at {
                    assert(id != relation);
                    assert(store@.full[r] == before.full[r]);
                }
            }
        }
        i += 1;
    }
    proof {
        assert(scc@.relations.take(scc@.relations.len() as int) =~= scc@.relations);
        assert forall|r: int| 0 <= r < start.full.len() implies #[trigger] store@.full[r]
            == advanced(scc@, start).full[r] && store@.delta[r] == advanced(
            scc@,
            start,
        ).delta[r] by {}
        assert(store@.full =~= advanced(scc@, start).full);
        assert(store@.delta =~= advanced(scc@, start).delta) by {
            assert forall|r: int| 0 <= r < start.delta.len() implies #[trigger] store@.delta[r]
                == advanced(scc@, start).delta[r] by {
                assert(store@.full[r] == advanced(scc@, start).full[r]);
            }
        }
    }
    sum
}

/// Makes everything that a component knows new.
fn start_scc(scc: &GeneralSccPlan, store: &mut TupleStore, Ghost(before): Ghost<StoreView>)
    requires
        old(store).wf(),
        scc_valid(scc@, before.full.len() as int),
        old(store)@ == seeded(scc@, before),
        before.full.len() == before.delta.len(),
    ensures
        final(store).wf(),
        final(store)@ == started(scc@, before),
{
    let ghost base = store@;
    let mut i: usize = 0;
    while i < scc.relations.len()
        invariant
            i <= scc.relations@.len(),
            store.wf(),
            base == seeded(scc@, before),
            before.full.len() == before.delta.len(),
            scc_valid(scc@, before.full.len() as int),
            store@.full == base.full,
            store@.delta.len() == base.delta.len(),
            forall|r: int|
                0 <= r < base.delta.len() ==> #[trigger] store@.delta[r]
                    == if scc@.relations.take(i as int).contains(RelationId(r as u32)) {
                    base.full[r]
                } else {
                    base.delta[r]
                },
        decreases scc.relations@.len() - i,
    {
        let relation = scc.relations[i];
        let ghost current = store@;
        assert(scc@.relations[i as int] == relation);
        let known = match store.rows(relation) {
            Some(rows) => rows.copied(),
            None => TupleSet::new(),
        };
        store.set_delta(relation, known);
        proof {
            let prefix = scc@.relations.take(i as int);
            let longer = scc@.relations.take(i + 1);
            assert(longer =~= prefix.push(relation));
            assert forall|r: int| 0 <= r < base.delta.len() implies #[trigger] store@.delta[r]
                == if longer.contains(RelationId(r as u32)) {
                base.full[r]
            } else {
                base.delta[r]
            } by {
                let id = RelationId(r as u32);
                vstd::seq_lib::lemma_seq_contains_after_push(prefix, relation, id);
                if longer.contains(id) && id != relation {
                    let j = choose|j: int| 0 <= j < longer.len() && longer[j] == id;
                    assert(prefix[j] == id);
                }
                if r != relation.0 {
                    assert(store@.delta[r] == current.delta[r]);
                }
            }
        }
        i += 1;
    }
    proof {
        assert(scc@.relations.take(scc@.relations.len() as int) =~= scc@.relations);
        assert(store@ =~= started(scc@, before));
    }
}

/// Whether no relation of a component has new tuples.
fn is_settled(scc: &GeneralSccPlan, store: &TupleStore) -> (r: bool)
    requires
        store.wf(),
        scc_valid(scc@, store@.full.len() as int),
    ensures
        r == settled(scc@, store@),
{
    proof {
        store.lemma_wf();
    }
    let mut i: usize = 0;
    while i < scc.relations.len()
        invariant
            i <= scc.relations@.len(),
            store.wf(),
            store@.full.len() == store@.delta.len(),
            scc_valid(scc@, store@.full.len() as int),
            forall|j: int|
                0 <= j < i ==> store@.delta[(#[trigger] scc@.relations[j]).0 as int] == Set::<
                    Seq<u32>,
                >::empty(),
        decreases scc.relations@.len() - i,
    {
        let relation = scc.relations[i];
        assert(scc@.relations[i as int] == relation);
        let empty = match store.delta(relation) {
            Some(rows) => rows.is_empty(),
            None => true,
        };
        if !empty {
            return false;
        }
        i += 1;
    }
    true
}

fn summary(
    scc: &GeneralSccPlan,
    store: &TupleStore,
    iterations: usize,
    new_rows: usize,
) -> (result: GeneralSccSummary)
    requires
        store.wf(),
        scc_valid(scc@, store@.full.len() as int),
    ensures
        result.iterations == iterations,
        result.new_rows == new_rows,
        result.relations@.len() == scc@.relations.len(),
        forall|i: int|
            0 <= i < scc@.relations.len() ==> {
                &&& (#[trigger] result.relations@[i]).0 == scc@.relations[i]
                &&& result.relations@[i].1 == store@.full[scc@.relations[i].0 as int].len()
            },
{
    let mut relations: Vec<(RelationId, usize)> = Vec::new();
    let mut i: usize = 0;
    while i < scc.relations.len()
        invariant
            i <= scc.relations@.len(),
            relations@.len() == i,
            store.wf(),
            scc_valid(scc@, store@.full.len() as int),
            forall|j: int|
                0 <= j < i ==> {
                    &&& (#[trigger] relations@[j]).0 == scc@.relations[j]
                    &&& relations@[j].1 == store@.full[scc@.relations[j].0 as int].len()
                },
        decreases scc.relations@.len() - i,
    {
        let relation = scc.relations[i];
        assert(scc@.relations[i as int] == relation);
        let length: usize = match store.rows(relation) {
            Some(rows) => rows.len(),
            None => 0,
        };
        relations.push((relation, length));
        i += 1;
    }
    GeneralSccSummary { relations, iterations, new_rows }
}

proof fn lemma_iterated_len(scc: SccPlanView, store: StoreView, rounds: nat)
    ensures
        iterated(scc, store, rounds).full.len() == store.full.len(),
        iterated(scc, store, rounds).delta.len() == store.delta.len(),
    decreases rounds,
{
    if rounds > 0 {
        lemma_iterated_len(scc, store, (rounds - 1) as nat);
    }
}

/// A component settles after at most one number of rounds.
pub proof fn lemma_settles_once(scc: SccPlanView, store: StoreView, a: nat, b: nat)
    requires
        settles_at(scc, store, a),
        settles_at(scc, store, b),
    ensures
        a == b,
{
    if a < b {
        assert(!settled(scc, iterated(scc, store, a)));
    }
    if b < a {
        assert(!settled(scc, iterated(scc, store, b)));
    }
}

/// Evaluates one component to its fixpoint.
fn execute_scc(
    scc: &GeneralSccPlan,
    store: &mut TupleStore,
    max_iterations: usize,
) -> (result: Result<GeneralSccSummary, GeneralExecutionError>)
    requires
        old(store).wf(),
        scc_valid(scc@, old(store)@.full.len() as int),
    ensures
        final(store).wf(),
        result is Ok <==> run_scc(scc@, old(store)@, max_iterations) is Some,
        result matches Ok(summary) ==> {
            &&& run_scc(scc@, old(store)@, max_iterations) == Some(final(store)@)
            &&& summarizes(summary, scc@, old(store)@, final(store)@)
        },
        result matches Err(error) ==> error == (GeneralExecutionError::IterationLimit {
            limit: max_iterations,
        }),
{
    let ghost before = store@;
    proof {
        store.lemma_wf();
    }
    seed_scc(scc, store);
    if !scc.recursive {
        let iterations: usize = if scc.seeds.len() > 0 {
            1
        } else {
            0
        };
        return Ok(summary(scc, store, iterations, 0));
    }
    start_scc(scc, store, Ghost(before));
    let ghost start = store@;
    let mut iterations: usize = 0;
    let mut total_new: usize = 0;
    assert(capped(0) == 0);
    while !is_settled(scc, store)
        invariant
            store.wf(),
            before == old(store)@,
            start.full.len() == before.full.len(),
            start == started(scc@, before),
            scc_valid(scc@, start.full.len() as int),
            store@ == iterated(scc@, start, iterations as nat),
            store@.full.len() == start.full.len(),
            scc@.recursive,
            iterations <= max_iterations,
            total_new == capped(new_tuples(scc@, start, iterations as nat)),
            forall|n: nat| n < iterations ==> !settled(scc@, #[trigger] iterated(scc@, start, n)),
        decreases max_iterations - iterations,
    {
        if iterations >= max_iterations {
            proof {
                assert forall|n: nat| n <= max_iterations implies !#[trigger] settles_at(
                    scc@,
                    start,
                    n,
                ) by {
                    if n < iterations {
                        assert(!settled(scc@, iterated(scc@, start, n)));
                    } else {
                        assert(n == iterations as nat);
                    }
                }
            }
            return Err(GeneralExecutionError::IterationLimit { limit: max_iterations });
        }
        let ghost known = new_tuples(scc@, start, iterations as nat);
        assert(total_new == capped(known));
        total_new = advance_scc(scc, store, total_new);
        proof {
            lemma_iterated_len(scc@, start, (iterations + 1) as nat);
        }
        iterations += 1;
    }
    proof {
        assert(settles_at(scc@, start, iterations as nat));
        lemma_settles_once(scc@, start, iterations as nat, settling_round(scc@, start));
    }
    Ok(summary(scc, store, iterations, total_new))
}

/// Evaluates a program: its facts, then its components in order.
///
/// Fails if a component takes more than `max_iterations` rounds.
pub fn execute_general(plan: &GeneralProgramPlan, max_iterations: usize) -> (result: Result<
    GeneralExecution,
    GeneralExecutionError,
>)
    requires
        plan_valid(plan@),
    ensures
        result is Ok <==> run_program(plan@, max_iterations) is Some,
        result matches Ok(execution) ==> {
            &&& execution.store.wf()
            &&& run_program(plan@, max_iterations) == Some(execution.store@)
            &&& summarized(plan@, max_iterations, execution.summaries@)
        },
        result matches Err(error) ==> error == (GeneralExecutionError::IterationLimit {
            limit: max_iterations,
        }),
{
    let mut store = TupleStore::empty(plan.predicate_count);
    let ghost count = plan.predicate_count as nat;
    let ghost facts = plan@.facts;
    let mut i: usize = 0;
    proof {
        assert forall|r: int| 0 <= r < count implies #[trigger] store@.full[r] == fact_store(
            count,
            facts.take(0),
        ).full[r] by {
            assert(fact_store(count, facts.take(0)).full[r] =~= Set::empty());
        }
        assert(store@ =~= fact_store(count, facts.take(0)));
    }
    while i < plan.facts.len()
        invariant
            i <= plan.facts@.len(),
            plan_valid(plan@),
            facts == plan@.facts,
            count == plan.predicate_count,
            store.wf(),
            store@ == fact_store(count, facts.take(i as int)),
        decreases plan.facts@.len() - i,
    {
        let relation = plan.facts[i].0;
        let tuple = copy_tuple(&plan.facts[i].1);
        assert(facts[i as int] == (relation, tuple@));
        let ghost before = store@;
        let ghost value = tuple@;
        store.add(relation, tuple);
        proof {
            let shorter = facts.take(i as int);
            let longer = facts.take(i + 1);
            assert(longer =~= shorter.push(facts[i as int]));
            assert forall|r: int| 0 <= r < count implies #[trigger] store@.full[r] == fact_store(
                count,
                longer,
            ).full[r] by {
                assert forall|t: Seq<u32>| #[trigger] store@.full[r].contains(t) <==> fact_store(
                    count,
                    longer,
                ).full[r].contains(t) by {
                    let key = (RelationId(r as u32), t);
                    vstd::seq_lib::lemma_seq_contains_after_push(shorter, facts[i as int], key);
                    if longer.contains(key) && key != facts[i as int] {
                        let j = choose|j: int| 0 <= j < longer.len() && longer[j] == key;
                        assert(shorter[j] == key);
                    }
                    if r != relation.0 {
                        assert(store@.full[r] == before.full[r]);
                    }
                }
                assert(store@.full[r] =~= fact_store(count, longer).full[r]);
            }
            assert(store@ =~= fact_store(count, longer));
        }
        i += 1;
    }
    assert(facts.take(facts.len() as int) =~= facts);
    let ghost start = store@;
    let ghost strata = plan@.strata;
    let mut summaries: Vec<GeneralSccSummary> = Vec::new();
    let mut s: usize = 0;
    assert(strata.take(0) =~= Seq::empty());
    while s < plan.strata.len()
        invariant
            s <= plan.strata@.len(),
            plan_valid(plan@),
            strata == plan@.strata,
            start.full.len() == plan.predicate_count,
            start == fact_store(plan.predicate_count as nat, plan@.facts),
            store.wf(),
            store@.full.len() == start.full.len(),
            run_sccs(all_sccs(strata.take(s as int)), start, max_iterations) == Some(store@),
            are_summaries(
                all_sccs(strata.take(s as int)),
                start,
                max_iterations,
                summaries@,
            ),
        decreases plan.strata@.len() - s,
    {
        let stratum = &plan.strata[s];
        let ghost earlier = all_sccs(strata.take(s as int));
        let ghost own = strata[s as int].sccs;
        assert(own == ast::views(stratum.sccs@));
        let mut k: usize = 0;
        assert(earlier + own.take(0) =~= earlier);
        while k < stratum.sccs.len()
            invariant
                s < plan.strata@.len(),
                k <= stratum.sccs@.len(),
                plan_valid(plan@),
                strata == plan@.strata,
                own == strata[s as int].sccs,
                own == ast::views(stratum.sccs@),
                start.full.len() == plan.predicate_count,
                start == fact_store(plan.predicate_count as nat, plan@.facts),
                earlier == all_sccs(strata.take(s as int)),
                store.wf(),
                store@.full.len() == start.full.len(),
                run_sccs(earlier + own.take(k as int), start, max_iterations) == Some(store@),
                are_summaries(
                    earlier + own.take(k as int),
                    start,
                    max_iterations,
                    summaries@,
                ),
            decreases stratum.sccs@.len() - k,
        {
            let scc = &stratum.sccs[k];
            assert(strata[s as int].sccs[k as int] == scc@);
            let ghost before = store@;
            let ghost done = earlier + own.take(k as int);
            let ghost next = earlier + own.take(k + 1);
            let ghost old_summaries = summaries@;
            assert(next.drop_last() =~= done);
            assert(next.last() == scc@);
            match execute_scc(scc, &mut store, max_iterations) {
                Ok(summary) => {
                    summaries.push(summary);
                    proof {
                        lemma_run_scc_len(scc@, before, max_iterations);
                        assert forall|j: int| 0 <= j < next.len() implies summary_at(
                            next,
                            start,
                            max_iterations,
                            summaries@,
                            j,
                        ) by {
                            if j < done.len() {
                                assert(summary_at(
                                    done,
                                    start,
                                    max_iterations,
                                    old_summaries,
                                    j,
                                ));
                                assert(next.take(j) =~= done.take(j));
                                assert(next.take(j + 1) =~= done.take(j + 1));
                                assert(next[j] == done[j]);
                            } else {
                                assert(next.take(j) =~= done);
                                assert(next.take(j + 1) =~= next);
                            }
                        }
                    }
                },
                Err(error) => {
                    proof {
                        assert(run_sccs(next, start, max_iterations) is None);
                        lemma_strata_prefix(strata, s as int, k + 1, next);
                        lemma_run_prefix(all_sccs(strata), start, max_iterations, next);
                    }
                    return Err(error);
                },
            }
            k += 1;
        }
        proof {
            assert(own.take(own.len() as int) =~= own);
            let taken = strata.take(s + 1);
            assert(taken.drop_last() =~= strata.take(s as int));
            assert(taken.last() == strata[s as int]);
        }
        s += 1;
    }
    assert(strata.take(strata.len() as int) =~= strata);
    Ok(GeneralExecution { store, summaries })
}

proof fn lemma_run_scc_len(scc: SccPlanView, store: StoreView, limit: usize)
    ensures
        run_scc(scc, store, limit) matches Some(after) ==> after.full.len() == store.full.len(),
{
    if scc.recursive {
        let start = started(scc, store);
        lemma_iterated_len(scc, start, settling_round(scc, start));
    }
}

/// What comes after a failed component does not matter.
pub proof fn lemma_run_prefix(
    sccs: Seq<SccPlanView>,
    store: StoreView,
    limit: usize,
    prefix: Seq<SccPlanView>,
)
    requires
        prefix.len() <= sccs.len(),
        prefix == sccs.take(prefix.len() as int),
        run_sccs(prefix, store, limit) is None,
    ensures
        run_sccs(sccs, store, limit) is None,
    decreases sccs.len(),
{
    if sccs.len() > prefix.len() {
        assert(prefix =~= sccs.drop_last().take(prefix.len() as int));
        lemma_run_prefix(sccs.drop_last(), store, limit, prefix);
    } else {
        assert(prefix =~= sccs);
    }
}

proof fn lemma_strata_prefix(
    strata: Seq<StratumPlanView>,
    s: int,
    k: int,
    prefix: Seq<SccPlanView>,
)
    requires
        0 <= s < strata.len(),
        0 <= k <= strata[s].sccs.len(),
        prefix == all_sccs(strata.take(s)) + strata[s].sccs.take(k),
    ensures
        prefix.len() <= all_sccs(strata).len(),
        prefix == all_sccs(strata).take(prefix.len() as int),
    decreases strata.len(),
{
    let all = all_sccs(strata);
    let rest = strata.drop_last();
    if s < rest.len() {
        assert(rest.take(s) =~= strata.take(s));
        assert(rest[s] == strata[s]);
        lemma_strata_prefix(rest, s, k, prefix);
        assert(prefix =~= all.take(prefix.len() as int));
    } else {
        assert(rest =~= strata.take(s));
        assert(prefix =~= all.take(prefix.len() as int));
    }
}

/// Whether summary `j` describes component `j`.
pub open spec fn summary_at(
    sccs: Seq<SccPlanView>,
    start: StoreView,
    limit: usize,
    summaries: Seq<GeneralSccSummary>,
    j: int,
) -> bool {
    &&& run_sccs(sccs.take(j), start, limit) is Some
    &&& run_sccs(sccs.take(j + 1), start, limit) is Some
    &&& summarizes(
        summaries[j],
        sccs[j],
        run_sccs(sccs.take(j), start, limit)->0,
        run_sccs(sccs.take(j + 1), start, limit)->0,
    )
}

/// Whether summaries describe components one by one.
pub open spec fn are_summaries(
    sccs: Seq<SccPlanView>,
    start: StoreView,
    limit: usize,
    summaries: Seq<GeneralSccSummary>,
) -> bool {
    &&& summaries.len() == sccs.len()
    &&& forall|j: int|
        0 <= j < sccs.len() ==> #[trigger] summary_at(sccs, start, limit, summaries, j)
}

/// Whether summaries describe the components of a program one by one.
pub open spec fn summarized(
    plan: ProgramPlanView,
    limit: usize,
    summaries: Seq<GeneralSccSummary>,
) -> bool {
    are_summaries(
        all_sccs(plan.strata),
        fact_store(plan.predicate_count as nat, plan.facts),
        limit,
        summaries,
    )
}

} // verus!
