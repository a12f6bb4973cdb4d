//! Evaluation of programs on the binary operator pipeline.
use vstd::prelude::*;

use crate::ast;
use crate::ast::{ResolvedAtomView, ResolvedLiteralView, ResolvedProgramView, ResolvedRuleView};
use crate::catalog::PredicateId;
use crate::execution_general;
use crate::executor;
use crate::executor::{
    lists, GenericErrorView, GenericExecutionError, RecursiveExecutor, RelationKinds, RelationStore,
    RelationStoreError, SccSummary,
};
use crate::general;
use crate::pairs;
use crate::pairs::Pair;
use crate::placement::InputProvenance;
use crate::recursion::{IterationPlacements, IterationPolicies};
use crate::relational::{RecursiveRulePlan, RecursiveSccPlan, RelationId};
use crate::rounds;
use crate::rounds::RelationRows;
use crate::schedule;
use crate::storage;
use crate::storage::Relation;
use crate::subset;
use crate::subset::{
    BinaryProgramPlan, BinarySccPlan, BinarySeedPlan, ComponentShape, SeedView,
};
use crate::tuples;
use crate::tuples::TupleSet;

verus! {

/// The rows of each relation before the first round.
pub type RowLists = spec_fn(RelationId) -> Seq<Pair>;

/// The facts of a relation, in order.
pub open spec fn fact_list(facts: Seq<(RelationId, [u32; 2])>, id: RelationId) -> Seq<Pair>
    decreases facts.len(),
{
    if facts.len() == 0 {
        Seq::empty()
    } else {
        let earlier = fact_list(facts.drop_last(), id);
        if facts.last().0 == id {
            earlier.push((facts.last().1@[0], facts.last().1@[1]))
        } else {
            earlier
        }
    }
}

/// The facts of each relation, ascending.
pub open spec fn fact_rows(facts: Seq<(RelationId, [u32; 2])>) -> RowLists {
    |id: RelationId| rounds::distinct_list(fact_list(facts, id))
}

/// A column of a pair.
pub open spec fn entry(pair: Pair, column: u32) -> u32 {
    if column == 0 {
        pair.0
    } else {
        pair.1
    }
}

/// Columns of rows.
pub open spec fn projected(columns: Seq<u32>, rows: Seq<Pair>) -> Seq<Pair> {
    Seq::new(rows.len(), |k: int| (entry(rows[k], columns[0]), entry(rows[k], columns[1])))
}

/// The rows with those of a seed.
pub open spec fn seeded(rows: RowLists, seed: SeedView) -> RowLists {
    |id: RelationId|
        if id == seed.target {
            rounds::distinct_list(rows(id) + projected(seed.columns, rows(seed.source)))
        } else {
            rows(id)
        }
}

/// The rows with those of some seeds, one after the other.
pub open spec fn all_seeded(rows: RowLists, seeds: Seq<SeedView>) -> RowLists
    decreases seeds.len(),
{
    if seeds.len() == 0 {
        rows
    } else {
        seeded(all_seeded(rows, seeds.drop_last()), seeds.last())
    }
}

/// The rows with those of the seeds of some components.
pub open spec fn components_seeded(rows: RowLists, sccs: Seq<BinarySccPlan>) -> RowLists
    decreases sccs.len(),
{
    if sccs.len() == 0 {
        rows
    } else {
        all_seeded(
            components_seeded(rows, sccs.drop_last()),
            ast::views(sccs.last().seeds@),
        )
    }
}

/// The rows of a plan before the first round.
pub open spec fn start_rows(plan: BinaryProgramPlan) -> RowLists {
    components_seeded(fact_rows(plan.facts@), plan.recursive_sccs@)
}

/// Whether a component derives a relation.
pub open spec fn derives(sccs: Seq<BinarySccPlan>, id: RelationId) -> bool {
    exists|i: int| 0 <= i < sccs.len() && (#[trigger] sccs[i]).plan.relations@.contains(id)
}

/// Which relations a plan has, and which of them are derived.
pub open spec fn plan_kinds(plan: BinaryProgramPlan) -> RelationKinds {
    |id: RelationId|
        if id.0 < plan.predicate_count {
            Some(derives(plan.recursive_sccs@, id))
        } else {
            None
        }
}

/// The relations of a plan before the first round.
pub open spec fn start_relations(plan: BinaryProgramPlan) -> rounds::Relations {
    |id: RelationId|
        if id.0 < plan.predicate_count {
            RelationRows {
                full: start_rows(plan)(id),
                delta: if derives(plan.recursive_sccs@, id) {
                    start_rows(plan)(id)
                } else {
                    Seq::empty()
                },
                rest: Seq::empty(),
            }
        } else {
            RelationRows { full: Seq::empty(), delta: Seq::empty(), rest: Seq::empty() }
        }
}

/// Whether the rows of every relation can be held.
pub open spec fn start_fits(plan: BinaryProgramPlan) -> bool {
    forall|id: RelationId|
        id.0 < plan.predicate_count ==> storage::size_fits::<u32>(
            (#[trigger] start_rows(plan)(id)).len(),
        )
}

/// Whether a seed names relations and columns that there are.
pub open spec fn seed_in_range(seed: SeedView, count: usize) -> bool {
    &&& seed.target.0 < count
    &&& seed.source.0 < count
    &&& seed.columns.len() == 2
    &&& seed.columns[0] < 2
    &&& seed.columns[1] < 2
}

/// Whether the facts and seeds of a plan name relations and columns that there are.
pub open spec fn plan_in_range(plan: BinaryProgramPlan) -> bool {
    &&& plan.predicate_count <= u32::MAX + 1
    &&& forall|i: int|
        0 <= i < plan.facts@.len() ==> (#[trigger] plan.facts@[i]).0.0 < plan.predicate_count
    &&& forall|i: int, k: int|
        #![trigger plan.recursive_sccs@[i].seeds@[k]]
        0 <= i < plan.recursive_sccs@.len() && 0 <= k < plan.recursive_sccs@[i].seeds@.len()
            ==> seed_in_range(plan.recursive_sccs@[i].seeds@[k]@, plan.predicate_count)
}

/// Whether every rule joins on two columns, keeps two in order, and starts from the newest pairs of
/// a derived relation.
pub open spec fn rules_sound(plan: BinaryProgramPlan) -> bool {
    forall|i: int, k: int|
        #![trigger plan.recursive_sccs@[i].plan.rules@[k]]
        0 <= i < plan.recursive_sccs@.len() && 0 <= k < plan.recursive_sccs@[i].plan.rules@.len()
            ==> {
            &&& executor::is_binary_rule(plan.recursive_sccs@[i].plan.rules@[k])
            &&& derives(plan.recursive_sccs@, plan.recursive_sccs@[i].plan.rules@[k].delta_input)
        }
}

/// Whether a component first has no new pairs after a number of rounds.
pub open spec fn settles_at(
    ids: Seq<RelationId>,
    rules: Seq<RecursiveRulePlan>,
    relations: rounds::Relations,
    count: nat,
) -> bool {
    &&& rounds::is_settled(ids, rounds::after_rounds(rules, relations, count))
    &&& executor::goes_on(ids, rules, relations, count)
}

/// Whether, of the components that went through rounds, the rows of the relations that they read can
/// be numbered.
pub open spec fn reads_numbered(
    sccs: Seq<BinarySccPlan>,
    start: rounds::Relations,
    summaries: Seq<SccSummary>,
    count: int,
) -> bool {
    forall|i: int|
        0 <= i < count && summaries[i].iterations > 0 ==> rounds::rights_numbered(
            (#[trigger] sccs[i]).plan.rules@,
            after_components(sccs, start, summaries, i),
        )
}

/// Whether a component settles within a number of rounds, and the rounds stay within bounds.
pub open spec fn completes(
    scc: RecursiveSccPlan,
    relations: rounds::Relations,
    count: nat,
    limit: usize,
) -> bool {
    &&& count <= limit
    &&& settles_at(scc.relations@, scc.rules@, relations, count)
    &&& executor::rounds_fit(scc.rules@, relations, count)
}

/// What evaluating the components from one on comes to; `None` where sizes are out of bounds.
pub open spec fn outcome(
    sccs: Seq<BinarySccPlan>,
    kinds: RelationKinds,
    relations: rounds::Relations,
    limit: usize,
    from: int,
) -> Option<Result<rounds::Relations, GenericErrorView>>
    decreases sccs.len() - from,
{
    if from < 0 || from >= sccs.len() {
        Some(Ok(relations))
    } else {
        let scc = sccs[from].plan;
        match executor::component_problem(kinds, scc.relations@, scc.rules@) {
            Some(problem) => Some(Err(problem)),
            None => if exists|count: nat| #[trigger] completes(scc, relations, count, limit) {
                let count = choose|count: nat| #[trigger] completes(scc, relations, count, limit);
                outcome(
                    sccs,
                    kinds,
                    rounds::after_rounds(scc.rules@, relations, count),
                    limit,
                    from + 1,
                )
            } else if executor::goes_on(
                scc.relations@,
                scc.rules@,
                relations,
                (limit + 1) as nat,
            ) && executor::rounds_fit(scc.rules@, relations, limit as nat) {
                let reached = rounds::after_rounds(scc.rules@, relations, limit as nat);
                Some(
                    Err(
                        GenericErrorView::IterationLimit {
                            limit,
                            remaining_delta_rows: execution_general::capped(
                                executor::pair_count(
                                    reached,
                                    scc.relations@,
                                    scc.relations@.len() as int,
                                ),
                            ),
                        },
                    ),
                )
            } else {
                None
            },
        }
    }
}

/// The relations after the rounds of some first components.
pub open spec fn after_components(
    sccs: Seq<BinarySccPlan>,
    relations: rounds::Relations,
    summaries: Seq<SccSummary>,
    count: int,
) -> rounds::Relations
    decreases count,
{
    if count <= 0 {
        relations
    } else {
        rounds::after_rounds(
            sccs[count - 1].plan.rules@,
            after_components(sccs, relations, summaries, count - 1),
            summaries[count - 1].iterations as nat,
        )
    }
}

/// Whether every component of a plan can be compiled.
pub open spec fn components_compile(plan: BinaryProgramPlan) -> bool {
    forall|i: int|
        0 <= i < plan.recursive_sccs@.len() ==> executor::component_problem(
            plan_kinds(plan),
            (#[trigger] plan.recursive_sccs@[i]).plan.relations@,
            plan.recursive_sccs@[i].plan.rules@,
        ) is None
}

/// Whether the first components each ran until they had no new pairs.
pub open spec fn components_settled(
    sccs: Seq<BinarySccPlan>,
    relations: rounds::Relations,
    summaries: Seq<SccSummary>,
    count: int,
) -> bool {
    forall|i: int|
        0 <= i < count ==> settles_at(
            (#[trigger] sccs[i]).plan.relations@,
            sccs[i].plan.rules@,
            after_components(sccs, relations, summaries, i),
            summaries[i].iterations as nat,
        )
}

/// Whether a summary tells what the rounds of a component did.
pub open spec fn is_summary(
    scc: RecursiveSccPlan,
    policies: IterationPolicies,
    relations: rounds::Relations,
    summary: SccSummary,
) -> bool {
    let count = summary.iterations as nat;
    let after = rounds::after_rounds(scc.rules@, relations, count);
    &&& summary.relation_rows@.len() == scc.relations@.len()
    &&& forall|k: int|
        0 <= k < scc.relations@.len() ==> {
            &&& (#[trigger] summary.relation_rows@[k]).0 == scc.relations@[k]
            &&& summary.relation_rows@[k].1 == after(scc.relations@[k]).full.len()
        }
    &&& summary.total_new_rows == execution_general::capped(
        executor::total_count(scc.rules@, relations, count),
    )
    &&& summary.last_placements@ == if count == 0 {
        Seq::<(RelationId, IterationPlacements)>::empty()
    } else {
        executor::round_placements(
            policies,
            scc.rules@,
            rounds::after_rounds(scc.rules@, relations, (count - 1) as nat),
        )
    }
}

/// Whether the first summaries tell what the rounds of the components did.
pub open spec fn are_summaries(
    sccs: Seq<BinarySccPlan>,
    policies: IterationPolicies,
    relations: rounds::Relations,
    summaries: Seq<SccSummary>,
    count: int,
) -> bool {
    forall|i: int|
        0 <= i < count ==> is_summary(
            (#[trigger] sccs[i]).plan,
            policies,
            after_components(sccs, relations, summaries, i),
            summaries[i],
        )
}

/// A store with the results of a program, and what was done.
pub struct BinaryExecution {
    pub store: RelationStore,
    pub summaries: Vec<SccSummary>,
}

/// What an evaluation error says.
pub enum BinaryErrorView {
    Storage(storage::Error),
    Store(RelationStoreError),
    Recursion(GenericErrorView),
}

#[derive(Debug, Clone, Copy, PartialEq, Eq)]
pub enum BinaryExecutionError {
    Storage(storage::Error),
    Store(RelationStoreError),
    Recursion(GenericExecutionError),
}

impl View for BinaryExecutionError {
    type V = BinaryErrorView;

    open spec fn view(&self) -> BinaryErrorView {
        match *self {
            BinaryExecutionError::Storage(error) => BinaryErrorView::Storage(error),
            BinaryExecutionError::Store(error) => BinaryErrorView::Store(error),
            BinaryExecutionError::Recursion(error) => BinaryErrorView::Recursion(error@),
        }
    }
}

impl BinaryExecutionError {
    pub fn message(&self) -> (message: String)
        ensures
            message@ == match self@ {
                BinaryErrorView::Storage(error) => error.text(),
                BinaryErrorView::Store(error) => error.text(),
                BinaryErrorView::Recursion(error) => executor::generic_error_text(error),
            },
    {
        match self {
            BinaryExecutionError::Storage(error) => error.message(),
            BinaryExecutionError::Store(error) => error.message(),
            BinaryExecutionError::Recursion(error) => error.message(),
        }
    }
}

/// The tuples of a set as pairs, ascending.
spec fn pairs_of(set: TupleSet) -> Seq<Pair> {
    Seq::new(set.listed().len(), |i: int| (set.listed()[i][0], set.listed()[i][1]))
}

/// Whether a set holds pairs only, and which list of pairs it is.
spec fn lists_pairs(set: TupleSet, list: Seq<Pair>) -> bool {
    &&& set.wf()
    &&& forall|tuple: Seq<u32>| #[trigger] set@.contains(tuple) ==> tuple.len() == 2
    &&& pairs_of(set) == list
}

proof fn lemma_pairs_of(set: TupleSet)
    requires
        set.wf(),
        forall|tuple: Seq<u32>| #[trigger] set@.contains(tuple) ==> tuple.len() == 2,
    ensures
        pairs::pairs_ascending(pairs_of(set)),
        forall|p: Pair| #[trigger] pairs_of(set).contains(p) <==> set@.contains(seq![p.0, p.1]),
        pairs_of(set).len() == set.listed().len(),
{
    set.lemma_listed();
    let list = set.listed();
    assert forall|i: int| 0 <= i < list.len() implies (#[trigger] list[i]).len() == 2 by {
        assert(list.to_set().contains(list[i]));
    }
    let found = pairs_of(set);
    assert forall|i: int, j: int|
        #![trigger found[i], found[j]]
        0 <= i < j < found.len() implies pairs::pair_less(found[i], found[j]) by {
        assert(tuples::tuple_less(list[i], list[j]));
        let k = choose|k: int| tuples::less_at(list[i], list[j], k);
        assert(list[i].len() == 2 && list[j].len() == 2);
    }
    assert forall|p: Pair| #[trigger] found.contains(p) <==> set@.contains(seq![p.0, p.1]) by {
        if found.contains(p) {
            let i = choose|i: int| 0 <= i < found.len() && found[i] == p;
            assert(list[i] =~= seq![p.0, p.1]);
            assert(list.to_set().contains(list[i]));
        }
        if set@.contains(seq![p.0, p.1]) {
            assert(list.contains(seq![p.0, p.1]));
            let i = choose|i: int| 0 <= i < list.len() && list[i] == seq![p.0, p.1];
            assert(found[i] == p);
        }
    }
}

/// Adding a pair to a set adds it to the list of which it is the distinct one.
proof fn lemma_inserted(before: TupleSet, after: TupleSet, list: Seq<Pair>, p: Pair)
    requires
        lists_pairs(before, rounds::distinct_list(list)),
        after.wf(),
        after@ == before@.insert(seq![p.0, p.1]),
    ensures
        lists_pairs(after, rounds::distinct_list(list.push(p))),
{
    lemma_pairs_of(before);
    lemma_pairs_of(after);
    rounds::law_distinct_list(list);
    rounds::law_distinct_list(list.push(p));
    let a = pairs_of(after);
    let b = rounds::distinct_list(list.push(p));
    assert forall|q: Pair|
        #![trigger a.contains(q)]
        #![trigger b.contains(q)]
        a.contains(q) <==> b.contains(q) by {
        vstd::seq_lib::lemma_seq_contains_after_push(list, p, q);
        assert(b.contains(q) <==> list.push(p).contains(q));
        assert(rounds::distinct_list(list).contains(q) <==> list.contains(q));
        assert(a.contains(q) <==> after@.contains(seq![q.0, q.1]));
        assert(pairs_of(before).contains(q) <==> before@.contains(seq![q.0, q.1]));
        if seq![q.0, q.1] == seq![p.0, p.1] {
            assert(seq![q.0, q.1][0] == seq![p.0, p.1][0]);
            assert(seq![q.0, q.1][1] == seq![p.0, p.1][1]);
        }
    }
    pairs::law_ascending_pairs_unique(a, b);
}

/// An ascending list is its own distinct list.
proof fn lemma_distinct_again(list: Seq<Pair>)
    requires
        pairs::pairs_ascending(list),
    ensures
        rounds::distinct_list(list) == list,
{
    rounds::law_distinct_list(list);
    let found = rounds::distinct_list(list);
    assert(pairs::same_pairs(found, list));
    pairs::law_ascending_pairs_unique(found, list);
}

fn pair_tuple(first: u32, second: u32) -> (tuple: Vec<u32>)
    ensures
        tuple@ == seq![first, second],
{
    let mut tuple: Vec<u32> = Vec::new();
    tuple.push(first);
    tuple.push(second);
    assert(tuple@ =~= seq![first, second]);
    tuple
}

/// The facts of every relation.
fn collect_facts(plan: &BinaryProgramPlan) -> (rows: Vec<TupleSet>)
    requires
        plan_in_range(*plan),
    ensures
        rows@.len() == plan.predicate_count,
        forall|r: int|
            0 <= r < rows@.len() ==> lists_pairs(
                #[trigger] rows@[r],
                fact_rows(plan.facts@)(RelationId(r as u32)),
            ),
{
    let mut rows: Vec<TupleSet> = Vec::new();
    let ghost none = Seq::<(RelationId, [u32; 2])>::empty();
    while rows.len() < plan.predicate_count
        invariant
            rows@.len() <= plan.predicate_count,
            forall|r: int|
                0 <= r < rows@.len() ==> lists_pairs(
                    #[trigger] rows@[r],
                    rounds::distinct_list(Seq::empty()),
                ),
        decreases plan.predicate_count - rows@.len(),
    {
        let empty = TupleSet::new();
        proof {
            empty.lemma_listed();
            assert(pairs_of(empty) =~= Seq::<Pair>::empty());
            lemma_distinct_again(Seq::<Pair>::empty());
        }
        rows.push(empty);
    }
    let ghost facts = plan.facts@;
    let mut i: usize = 0;
    assert(facts.take(0) =~= none);
    while i < plan.facts.len()
        invariant
            i <= plan.facts@.len(),
            facts == plan.facts@,
            plan_in_range(*plan),
            rows@.len() == plan.predicate_count,
            forall|r: int|
                0 <= r < rows@.len() ==> lists_pairs(
                    #[trigger] rows@[r],
                    rounds::distinct_list(fact_list(facts.take(i as int), RelationId(r as u32))),
                ),
        decreases plan.facts@.len() - i,
    {
        let fact = plan.facts[i];
        assert(plan.facts@[i as int].0.0 < plan.predicate_count);
        let relation: usize = fact.0.0 as usize;
        let ghost before = rows@;
        let pair = fact.1;
        rows[relation].insert(pair_tuple(pair[0], pair[1]));
        proof {
            assert(facts.take(i + 1).drop_last() =~= facts.take(i as int));
            assert(facts.take(i + 1).last() == fact);
            let p: Pair = (fact.1@[0], fact.1@[1]);
            lemma_inserted(
                before[relation as int],
                rows@[relation as int],
                fact_list(facts.take(i as int), fact.0),
                p,
            );
            assert forall|r: int| 0 <= r < rows@.len() implies lists_pairs(
                #[trigger] rows@[r],
                rounds::distinct_list(fact_list(facts.take(i + 1), RelationId(r as u32))),
            ) by {
                if r != relation {
                    assert(rows@[r] == before[r]);
                }
            }
        }
        i += 1;
    }
    assert(facts.take(facts.len() as int) =~= facts);
    rows
}

/// Whether sets hold the rows of each relation.
spec fn rows_are(rows: Seq<TupleSet>, lists: RowLists) -> bool {
    forall|r: int|
        0 <= r < rows.len() ==> lists_pairs(#[trigger] rows[r], lists(RelationId(r as u32)))
}

/// Adds the rows of a seed.
fn apply_seed(rows: &mut Vec<TupleSet>, seed: &BinarySeedPlan, Ghost(lists): Ghost<RowLists>)
    requires
        rows_are(old(rows)@, lists),
        seed_in_range(seed@, old(rows)@.len() as usize),
        old(rows)@.len() <= u32::MAX + 1,
    ensures
        final(rows)@.len() == old(rows)@.len(),
        rows_are(final(rows)@, seeded(lists, seed@)),
{
    let target: usize = seed.target.0 as usize;
    let source: usize = seed.source.0 as usize;
    let first: usize = seed.columns[0] as usize;
    let second: usize = seed.columns[1] as usize;
    let ghost before = rows@;
    let ghost into = lists(seed.target);
    let ghost from = lists(seed.source);
    let ghost taken = projected(seed@.columns, from);
    let tuples = rows[source].copied();
    proof {
        assert(lists_pairs(before[target as int], into));
        assert(lists_pairs(before[source as int], from));
        lemma_pairs_of(before[target as int]);
        lemma_pairs_of(tuples);
        tuples.lemma_listed();
        before[source as int].lemma_listed();
        lemma_distinct_again(into);
        assert(into + taken.take(0) =~= into);
        lemma_same_listing(tuples, before[source as int]);
    }
    let mut k: usize = 0;
    while k < tuples.len()
        invariant
            k <= tuples.listed().len(),
            tuples.wf(),
            lists_pairs(tuples, from),
            pairs_of(tuples).len() == tuples.listed().len(),
            taken == projected(seed@.columns, from),
            seed_in_range(seed@, rows@.len() as usize),
            target == seed.target.0,
            target < rows@.len(),
            first == seed@.columns[0],
            second == seed@.columns[1],
            rows@.len() == before.len(),
            forall|r: int| 0 <= r < rows@.len() && r != target ==> #[trigger] rows@[r] == before[r],
            lists_pairs(
                rows@[target as int],
                rounds::distinct_list(into + taken.take(k as int)),
            ),
        decreases tuples.listed().len() - k,
    {
        match tuples.get(k) {
            Some(tuple) => {
                let ghost earlier = rows@[target as int];
                proof {
                    tuples.lemma_listed();
                    assert(tuples@.contains(tuples.listed()[k as int])) by {
                        assert(tuples.listed().to_set().contains(tuples.listed()[k as int]));
                    }
                    assert(pairs_of(tuples)[k as int] == from[k as int]);
                }
                rows[target].insert(pair_tuple(tuple[first], tuple[second]));
                proof {
                    lemma_inserted(
                        earlier,
                        rows@[target as int],
                        into + taken.take(k as int),
                        taken[k as int],
                    );
                    assert((into + taken.take(k as int)).push(taken[k as int]) =~= into
                        + taken.take(k + 1));
                }
            },
            None => {},
        }
        k += 1;
    }
    proof {
        assert(taken.take(taken.len() as int) =~= taken);
        assert forall|r: int| 0 <= r < rows@.len() implies lists_pairs(
            #[trigger] rows@[r],
            seeded(lists, seed@)(RelationId(r as u32)),
        ) by {
            if r != target {
                assert(rows@[r] == before[r]);
            }
        }
    }
}

/// Sets with the same tuples list them alike.
proof fn lemma_same_listing(a: TupleSet, b: TupleSet)
    requires
        a.wf(),
        b.wf(),
        a@ == b@,
    ensures
        a.listed() == b.listed(),
{
    a.lemma_listed();
    b.lemma_listed();
    tuples::lemma_ascending_tuples_unique(a.listed(), b.listed());
}

/// Adds the rows of the seeds of every component.
fn apply_seeds(rows: &mut Vec<TupleSet>, plan: &BinaryProgramPlan, Ghost(lists): Ghost<RowLists>)
    requires
        plan_in_range(*plan),
        old(rows)@.len() == plan.predicate_count,
        rows_are(old(rows)@, lists),
    ensures
        final(rows)@.len() == plan.predicate_count,
        rows_are(final(rows)@, components_seeded(lists, plan.recursive_sccs@)),
{
    let ghost sccs = plan.recursive_sccs@;
    let mut i: usize = 0;
    assert(sccs.take(0) =~= Seq::<BinarySccPlan>::empty());
    while i < plan.recursive_sccs.len()
        invariant
            i <= plan.recursive_sccs@.len(),
            sccs == plan.recursive_sccs@,
            plan_in_range(*plan),
            rows@.len() == plan.predicate_count,
            rows_are(rows@, components_seeded(lists, sccs.take(i as int))),
        decreases plan.recursive_sccs@.len() - i,
    {
        let scc = &plan.recursive_sccs[i];
        let ghost base = components_seeded(lists, sccs.take(i as int));
        let ghost seeds = ast::views(scc.seeds@);
        let mut k: usize = 0;
        assert(seeds.take(0) =~= Seq::<SeedView>::empty());
        while k < scc.seeds.len()
            invariant
                k <= scc.seeds@.len(),
                i < plan.recursive_sccs@.len(),
                *scc == plan.recursive_sccs@[i as int],
                seeds == ast::views(scc.seeds@),
                plan_in_range(*plan),
                rows@.len() == plan.predicate_count,
                rows_are(rows@, all_seeded(base, seeds.take(k as int))),
            decreases scc.seeds@.len() - k,
        {
            let seed = &scc.seeds[k];
            proof {
                assert(seed_in_range(
                    plan.recursive_sccs@[i as int].seeds@[k as int]@,
                    plan.predicate_count,
                ));
                assert(seeds.take(k + 1).drop_last() =~= seeds.take(k as int));
                assert(seeds.take(k + 1).last() == seed@);
            }
            apply_seed(rows, seed, Ghost(all_seeded(base, seeds.take(k as int))));
            k += 1;
        }
        proof {
            assert(seeds.take(seeds.len() as int) =~= seeds);
            assert(sccs.take(i + 1).drop_last() =~= sccs.take(i as int));
        }
        i += 1;
    }
    assert(sccs.take(sccs.len() as int) =~= sccs);
}

/// A relation with the tuples of a set.
fn relation_from_rows(rows: &TupleSet, Ghost(list): Ghost<Seq<Pair>>) -> (result: Result<
    Relation,
    storage::Error,
>)
    requires
        lists_pairs(*rows, list),
    ensures
        result is Ok <==> storage::size_fits::<u32>(list.len()),
        result matches Err(error) ==> error == storage::Error::LengthOverflow,
        result matches Ok(relation) ==> {
            &&& relation.wf()
            &&& relation.contents() == seq![
                Seq::new(list.len(), |k: int| list[k].0),
                Seq::new(list.len(), |k: int| list[k].1),
            ]
        },
{
    proof {
        rows.lemma_listed();
        lemma_pairs_of(*rows);
    }
    let mut relation = match Relation::new(2, rows.len()) {
        Ok(relation) => relation,
        Err(error) => {
            return Err(error);
        },
    };
    let ghost firsts = Seq::new(list.len(), |k: int| list[k].0);
    let ghost seconds = Seq::new(list.len(), |k: int| list[k].1);
    let ghost zeros = Seq::new(list.len(), |k: int| 0u32);
    proof {
        assert(relation.contents()[0] =~= zeros);
        assert(relation.contents()[1] =~= zeros);
        assert(firsts.take(0) + zeros.skip(0) =~= zeros);
        assert(seconds.take(0) + zeros.skip(0) =~= zeros);
    }
    let mut k: usize = 0;
    while k < rows.len()
        invariant
            k <= list.len(),
            rows.wf(),
            lists_pairs(*rows, list),
            list.len() == rows.listed().len(),
            firsts == Seq::new(list.len(), |k: int| list[k].0),
            seconds == Seq::new(list.len(), |k: int| list[k].1),
            zeros == Seq::new(list.len(), |k: int| 0u32),
            relation.contents().len() == 2,
            relation.contents()[0] == firsts.take(k as int) + zeros.skip(k as int),
            relation.contents()[1] == seconds.take(k as int) + zeros.skip(k as int),
        decreases list.len() - k,
    {
        match rows.get(k) {
            Some(tuple) => {
                proof {
                    rows.lemma_listed();
                    assert(rows@.contains(rows.listed()[k as int])) by {
                        assert(rows.listed().to_set().contains(rows.listed()[k as int]));
                    }
                    assert(pairs_of(*rows)[k as int] == list[k as int]);
                }
                match relation.column_mut(0) {
                    Some(column) => column.put(k, tuple[0]),
                    None => {},
                }
                match relation.column_mut(1) {
                    Some(column) => column.put(k, tuple[1]),
                    None => {},
                }
                proof {
                    assert(relation.contents()[0] =~= firsts.take(k + 1) + zeros.skip(k + 1));
                    assert(relation.contents()[1] =~= seconds.take(k + 1) + zeros.skip(k + 1));
                }
            },
            None => {},
        }
        k += 1;
    }
    proof {
        assert(relation.contents()[0] =~= firsts);
        assert(relation.contents()[1] =~= seconds);
        assert(relation.contents() =~= seq![firsts, seconds]);
    }
    Ok(relation)
}

fn is_derived(plan: &BinaryProgramPlan, id: RelationId) -> (derived: bool)
    ensures
        derived == derives(plan.recursive_sccs@, id),
{
    let mut i: usize = 0;
    while i < plan.recursive_sccs.len()
        invariant
            i <= plan.recursive_sccs@.len(),
            forall|j: int|
                0 <= j < i ==> !(#[trigger] plan.recursive_sccs@[j]).plan.relations@.contains(id),
        decreases plan.recursive_sccs@.len() - i,
    {
        if lists(&plan.recursive_sccs[i].plan.relations, id) {
            assert(plan.recursive_sccs@[i as int].plan.relations@.contains(id));
            return true;
        }
        i += 1;
    }
    false
}

/// Whether a relation of a store holds the rows of a plan.
spec fn is_filled(store: RelationStore, plan: BinaryProgramPlan, id: RelationId) -> bool {
    &&& store.get(id) is Some
    &&& store.get(id)->0.full.contents().len() == 2
    &&& store.get(id)->0.full.pairs() == start_rows(plan)(id)
    &&& store.get(id)->0.delta is Some <==> derives(plan.recursive_sccs@, id)
    &&& store.get(id)->0.delta matches Some(delta) ==> delta.pairs() == start_rows(plan)(id)
}

/// Whether the relations of a store are those of a plan, are at least binary, and hold ascending
/// pairs.
spec fn is_prepared(store: RelationStore, plan: BinaryProgramPlan) -> bool {
    &&& store.kinds() == plan_kinds(plan)
    &&& is_wide(store)
    &&& forall|id: RelationId| #[trigger]
        store.get(id) is Some ==> pairs::pairs_ascending(store.get(id)->0.full.pairs())
}

/// Whether the relations of a store are at least binary.
spec fn is_wide(store: RelationStore) -> bool {
    forall|id: RelationId| #[trigger]
        store.get(id) is Some ==> store.get(id)->0.full.contents().len() >= 2
}

/// A store with the rows of every relation.
fn fill_store(rows: &Vec<TupleSet>, plan: &BinaryProgramPlan) -> (result: Result<
    RelationStore,
    BinaryExecutionError,
>)
    requires
        plan_in_range(*plan),
        rows@.len() == plan.predicate_count,
        rows_are(rows@, start_rows(*plan)),
    ensures
        result is Ok <==> start_fits(*plan),
        result matches Err(error) ==> error@ == BinaryErrorView::Storage(
            storage::Error::LengthOverflow,
        ),
        result matches Ok(store) ==> {
            &&& store.wf()
            &&& store.kinds() == plan_kinds(*plan)
            &&& store.pairs() == start_relations(*plan)
            &&& is_prepared(store, *plan)
        },
{
    let ghost lists = start_rows(*plan);
    let mut relations: Vec<Relation> = Vec::new();
    while relations.len() < rows.len()
        invariant
            relations@.len() <= rows@.len(),
            rows@.len() == plan.predicate_count,
            plan_in_range(*plan),
            lists == start_rows(*plan),
            rows_are(rows@, lists),
            forall|r: int|
                0 <= r < relations@.len() ==> {
                    &&& (#[trigger] relations@[r]).wf()
                    &&& storage::size_fits::<u32>(lists(RelationId(r as u32)).len())
                    &&& relations@[r].contents() == seq![
                        Seq::new(
                            lists(RelationId(r as u32)).len(),
                            |k: int| lists(RelationId(r as u32))[k].0,
                        ),
                        Seq::new(
                            lists(RelationId(r as u32)).len(),
                            |k: int| lists(RelationId(r as u32))[k].1,
                        ),
                    ]
                },
        decreases rows@.len() - relations@.len(),
    {
        let r: usize = relations.len();
        assert(lists_pairs(rows@[r as int], lists(RelationId(r as u32))));
        match relation_from_rows(&rows[r], Ghost(lists(RelationId(r as u32)))) {
            Ok(relation) => relations.push(relation),
            Err(error) => {
                proof {
                    let id = RelationId(r as u32);
                    assert(!storage::size_fits::<u32>(start_rows(*plan)(id).len()));
                }
                return Err(BinaryExecutionError::Storage(error));
            },
        }
    }
    proof {
        assert forall|id: RelationId| id.0 < plan.predicate_count implies storage::size_fits::<
            u32,
        >((#[trigger] start_rows(*plan)(id)).len()) by {
            assert(relations@[id.0 as int].wf());
            assert(RelationId(id.0 as int as u32) == id);
        }
    }
    let mut store = RelationStore::new();
    let mut index: usize = 0;
    while index < relations.len()
        invariant
            index <= relations@.len(),
            relations@.len() == plan.predicate_count,
            plan_in_range(*plan),
            start_fits(*plan),
            lists == start_rows(*plan),
            forall|r: int|
                0 <= r < relations@.len() ==> {
                    &&& (#[trigger] relations@[r]).wf()
                    &&& relations@[r].contents() == seq![
                        Seq::new(
                            lists(RelationId(r as u32)).len(),
                            |k: int| lists(RelationId(r as u32))[k].0,
                        ),
                        Seq::new(
                            lists(RelationId(r as u32)).len(),
                            |k: int| lists(RelationId(r as u32))[k].1,
                        ),
                    ]
                },
            store.wf(),
            forall|id: RelationId| id.0 < index ==> #[trigger] is_filled(store, *plan, id),
            forall|id: RelationId| id.0 >= index ==> #[trigger] store.get(id) is None,
        decreases relations@.len() - index,
    {
        let id = RelationId(index as u32);
        let view = relations[index].view();
        let ghost before = store;
        let ghost list = lists(id);
        proof {
            assert(relations@[index as int].wf());
            assert(storage::size_fits::<u32>(start_rows(*plan)(id).len()));
            assert(view@[0].len() == list.len());
            assert(view.rows() == list.len());
        }
        let stored = if is_derived(plan, id) {
            store.insert_recursive(id, view, view, InputProvenance::Cpu)
        } else {
            store.insert_static(id, view, InputProvenance::Cpu)
        };
        match stored {
            Ok(_) => {},
            Err(error) => {
                return Err(BinaryExecutionError::Store(error));
            },
        }
        proof {
            let kept = store.get(id)->0;
            assert(kept.full.pairs() =~= list);
            assert(kept.delta matches Some(delta) ==> delta.pairs() =~= list);
            assert(is_filled(store, *plan, id));
            assert forall|other: RelationId| other.0 < index + 1 implies #[trigger] is_filled(
                store,
                *plan,
                other,
            ) by {
                if other != id {
                    assert(is_filled(before, *plan, other));
                    assert(store.get(other) == before.get(other));
                }
            }
        }
        index += 1;
    }
    proof {
        assert forall|id: RelationId| #[trigger] store.kinds()(id) == plan_kinds(*plan)(id) by {
            if id.0 < plan.predicate_count {
                assert(is_filled(store, *plan, id));
            } else {
                assert(store.get(id) is None);
            }
        }
        assert(store.kinds() =~= plan_kinds(*plan));
        assert forall|id: RelationId| #[trigger] store.pairs()(id) == start_relations(*plan)(id) by {
            if id.0 < plan.predicate_count {
                assert(is_filled(store, *plan, id));
            } else {
                assert(store.get(id) is None);
            }
        }
        assert(store.pairs() =~= start_relations(*plan));
        assert forall|id: RelationId| #[trigger] store.get(id) is Some implies {
            &&& store.get(id)->0.full.contents().len() >= 2
            &&& pairs::pairs_ascending(store.get(id)->0.full.pairs())
        } by {
            assert(id.0 < plan.predicate_count);
            assert(is_filled(store, *plan, id));
            assert(lists_pairs(rows@[id.0 as int], lists(RelationId(id.0 as int as u32))));
            lemma_pairs_of(rows@[id.0 as int]);
        }
    }
    Ok(store)
}

proof fn lemma_rules_present(
    kinds: RelationKinds,
    ids: Seq<RelationId>,
    rules: Seq<RecursiveRulePlan>,
    count: int,
)
    requires
        0 <= count <= rules.len(),
        executor::first_rule_problem(kinds, ids, rules, count) is None,
    ensures
        forall|i: int|
            0 <= i < count ==> {
                &&& kinds((#[trigger] rules[i]).delta_input) is Some
                &&& kinds(rules[i].right_input) is Some
                &&& ids.contains(rules[i].target)
            },
    decreases count,
{
    if count > 0 {
        lemma_rules_present(kinds, ids, rules, count - 1);
    }
}

proof fn lemma_ids_derived(kinds: RelationKinds, ids: Seq<RelationId>)
    requires
        executor::first_problem(kinds, ids) is None,
    ensures
        forall|i: int| 0 <= i < ids.len() ==> kinds(#[trigger] ids[i]) == Some(true),
    decreases ids.len(),
{
    if ids.len() > 0 {
        let shorter = ids.drop_last();
        lemma_ids_derived(kinds, shorter);
        assert forall|i: int| 0 <= i < ids.len() implies kinds(#[trigger] ids[i]) == Some(true) by {
            if i < shorter.len() {
                assert(shorter[i] == ids[i]);
            }
        }
    }
}

/// The rules of a component that can be compiled find relations that are ready.
proof fn lemma_component_ready(store: RelationStore, plan: BinaryProgramPlan, i: int)
    requires
        is_prepared(store, plan),
        rules_sound(plan),
        0 <= i < plan.recursive_sccs@.len(),
        executor::component_problem(
            plan_kinds(plan),
            plan.recursive_sccs@[i].plan.relations@,
            plan.recursive_sccs@[i].plan.rules@,
        ) is None,
    ensures
        executor::all_ready(store, plan.recursive_sccs@[i].plan.rules@),
{
    let kinds = plan_kinds(plan);
    let ids = plan.recursive_sccs@[i].plan.relations@;
    let rules = plan.recursive_sccs@[i].plan.rules@;
    lemma_ids_derived(kinds, ids);
    lemma_rules_present(kinds, ids, rules, rules.len() as int);
    assert forall|k: int| 0 <= k < rules.len() implies executor::is_ready(
        store,
        #[trigger] rules[k],
    ) by {
        let rule = rules[k];
        assert(executor::is_binary_rule(plan.recursive_sccs@[i].plan.rules@[k]));
        assert(derives(plan.recursive_sccs@, rule.delta_input));
        let at = choose|at: int| 0 <= at < ids.len() && ids[at] == rule.target;
        assert(kinds(ids[at]) == Some(true));
        assert(store.kinds()(rule.target) == kinds(rule.target));
        assert(store.kinds()(rule.delta_input) == kinds(rule.delta_input));
        assert(store.kinds()(rule.right_input) == kinds(rule.right_input));
        assert(store.get(rule.target) is Some);
        assert(store.get(rule.delta_input) is Some);
        assert(store.get(rule.right_input) is Some);
    }
}

/// A run keeps relations prepared.
proof fn lemma_stays_prepared(
    before: RelationStore,
    after: RelationStore,
    plan: BinaryProgramPlan,
    rules: Seq<RecursiveRulePlan>,
)
    requires
        is_prepared(before, plan),
        executor::keeps_kinds(before, after),
        executor::all_ready(after, rules),
        forall|id: RelationId|
            !rounds::has_rule(rules, id) ==> #[trigger] after.get(id) == before.get(id),
    ensures
        is_prepared(after, plan),
{
    lemma_kinds_kept(before, after);
    assert forall|id: RelationId| #[trigger] after.get(id) is Some implies pairs::pairs_ascending(
        after.get(id)->0.full.pairs(),
    ) by {
        if rounds::has_rule(rules, id) {
            let j = choose|j: int| 0 <= j < rules.len() && (#[trigger] rules[j]).target == id;
            assert(executor::is_ready(after, rules[j]));
        } else {
            assert(after.get(id) == before.get(id));
        }
    }
}

proof fn lemma_kinds_kept(before: RelationStore, after: RelationStore)
    requires
        executor::keeps_kinds(before, after),
    ensures
        after.kinds() == before.kinds(),
        is_wide(before) ==> is_wide(after),
{
    reveal(executor::keeps_kinds);
    assert forall|id: RelationId| #[trigger] after.kinds()(id) == before.kinds()(id) by {
        let seen = after.get(id);
    }
    assert(after.kinds() =~= before.kinds());
    if is_wide(before) {
        assert forall|id: RelationId| #[trigger] after.get(id) is Some implies after.get(
            id,
        )->0.full.contents().len() >= 2 by {
            let seen = before.get(id);
            assert(before.get(id) is Some);
        }
    }
}

/// What some first components reach does not depend on later summaries.
proof fn lemma_after_prefix(
    sccs: Seq<BinarySccPlan>,
    relations: rounds::Relations,
    summaries: Seq<SccSummary>,
    summary: SccSummary,
    count: int,
)
    requires
        count <= summaries.len(),
    ensures
        after_components(sccs, relations, summaries.push(summary), count) == after_components(
            sccs,
            relations,
            summaries,
            count,
        ),
    decreases count,
{
    if count > 0 {
        lemma_after_prefix(sccs, relations, summaries, summary, count - 1);
        assert(summaries.push(summary)[count - 1] == summaries[count - 1]);
    }
}

/// A component settles after one number of rounds only.
proof fn lemma_settles_once(
    ids: Seq<RelationId>,
    rules: Seq<RecursiveRulePlan>,
    relations: rounds::Relations,
    a: nat,
    b: nat,
)
    requires
        settles_at(ids, rules, relations, a),
        settles_at(ids, rules, relations, b),
    ensures
        a == b,
{
    reveal(executor::goes_on);
    if a < b {
        assert(!rounds::is_settled(ids, rounds::after_rounds(rules, relations, a)));
    }
    if b < a {
        assert(!rounds::is_settled(ids, rounds::after_rounds(rules, relations, b)));
    }
}

fn copy_component(plan: &RecursiveSccPlan) -> (copy: RecursiveSccPlan)
    ensures
        copy.relations@ == plan.relations@,
        copy.rules@ == plan.rules@,
{
    let mut relations: Vec<RelationId> = Vec::new();
    let mut i: usize = 0;
    while i < plan.relations.len()
        invariant
            i <= plan.relations@.len(),
            relations@ == plan.relations@.take(i as int),
        decreases plan.relations@.len() - i,
    {
        relations.push(plan.relations[i]);
        assert(relations@ =~= plan.relations@.take(i + 1));
        i += 1;
    }
    let mut rules: Vec<RecursiveRulePlan> = Vec::new();
    let mut k: usize = 0;
    while k < plan.rules.len()
        invariant
            k <= plan.rules@.len(),
            rules@ == plan.rules@.take(k as int),
        decreases plan.rules@.len() - k,
    {
        rules.push(plan.rules[k]);
        assert(rules@ =~= plan.rules@.take(k + 1));
        k += 1;
    }
    assert(relations@ =~= plan.relations@);
    assert(rules@ =~= plan.rules@);
    RecursiveSccPlan { relations, rules }
}

/// Evaluates a plan: its facts and seeds, then its components in order, each until it has no new
/// rows.
#[verifier::rlimit(40)]
pub fn execute_binary(
    plan: &BinaryProgramPlan,
    policies: IterationPolicies,
    max_iterations: usize,
) -> (result: Result<BinaryExecution, BinaryExecutionError>)
    requires
        plan_in_range(*plan),
    ensures
        !start_fits(*plan) ==> result is Err && result->Err_0@ == BinaryErrorView::Storage(
            storage::Error::LengthOverflow,
        ),
        start_fits(*plan) ==> (result is Err ==> result->Err_0@ is Recursion),
        start_fits(*plan) && rules_sound(*plan) ==> match outcome(
            plan.recursive_sccs@,
            plan_kinds(*plan),
            start_relations(*plan),
            max_iterations,
            0,
        ) {
            Some(Ok(relations)) => result is Ok && result->Ok_0.store.pairs() == relations,
            Some(Err(problem)) => result is Err && result->Err_0@ == BinaryErrorView::Recursion(
                problem,
            ),
            None => true,
        },
        result matches Ok(execution) ==> {
            &&& execution.store.wf()
            &&& execution.store.kinds() == plan_kinds(*plan)
            &&& components_compile(*plan)
            &&& execution.summaries@.len() == plan.recursive_sccs@.len()
            &&& forall|i: int|
                0 <= i < execution.summaries@.len() ==> (#[trigger] execution.summaries@[
                    i
                ]).iterations <= max_iterations
        },
        result matches Ok(execution) ==> (rules_sound(*plan) ==> {
            let sccs = plan.recursive_sccs@;
            let start = start_relations(*plan);
            let summaries = execution.summaries@;
            &&& execution.store.pairs() == after_components(
                sccs,
                start,
                summaries,
                sccs.len() as int,
            )
            &&& components_settled(sccs, start, summaries, sccs.len() as int)
            &&& are_summaries(sccs, policies, start, summaries, sccs.len() as int)
            &&& reads_numbered(sccs, start, summaries, sccs.len() as int)
        }),
{
    let mut rows = collect_facts(plan);
    apply_seeds(&mut rows, plan, Ghost(fact_rows(plan.facts@)));
    let mut store = match fill_store(&rows, plan) {
        Ok(store) => store,
        Err(error) => {
            return Err(error);
        },
    };
    let ghost sccs = plan.recursive_sccs@;
    let ghost kinds = plan_kinds(*plan);
    let ghost start = start_relations(*plan);
    let ghost sound = rules_sound(*plan);
    let ghost whole = outcome(sccs, kinds, start, max_iterations, 0);
    let mut summaries: Vec<SccSummary> = Vec::new();
    let mut i: usize = 0;
    while i < plan.recursive_sccs.len()
        invariant
            i <= plan.recursive_sccs@.len(),
            plan_in_range(*plan),
            start_fits(*plan),
            sccs == plan.recursive_sccs@,
            kinds == plan_kinds(*plan),
            start == start_relations(*plan),
            sound == rules_sound(*plan),
            whole == outcome(sccs, kinds, start, max_iterations, 0),
            store.wf(),
            store.kinds() == kinds,
            is_wide(store),
            summaries@.len() == i,
            forall|j: int| 0 <= j < i ==> (#[trigger] summaries@[j]).iterations <= max_iterations,
            forall|j: int|
                0 <= j < i ==> executor::component_problem(
                    kinds,
                    (#[trigger] plan.recursive_sccs@[j]).plan.relations@,
                    plan.recursive_sccs@[j].plan.rules@,
                ) is None,
            sound ==> {
                &&& is_prepared(store, *plan)
                &&& store.pairs() == after_components(sccs, start, summaries@, i as int)
                &&& components_settled(sccs, start, summaries@, i as int)
                &&& are_summaries(sccs, policies, start, summaries@, i as int)
                &&& reads_numbered(sccs, start, summaries@, i as int)
                &&& whole is Some ==> whole == outcome(
                    sccs,
                    kinds,
                    store.pairs(),
                    max_iterations,
                    i as int,
                )
            },
        decreases plan.recursive_sccs@.len() - i,
    {
        let component = copy_component(&plan.recursive_sccs[i].plan);
        let ghost ids = component.relations@;
        let ghost rules = component.rules@;
        let ghost before = store;
        let ghost relations = store.pairs();
        let ghost scc = sccs[i as int].plan;
        let mut executor = match RecursiveExecutor::compile(component, &store) {
            Ok(executor) => executor,
            Err(error) => {
                return Err(BinaryExecutionError::Recursion(error));
            },
        };
        proof {
            assert(executor.is_current(store));
            if sound {
                lemma_component_ready(store, *plan, i as int);
            }
            assert forall|j: int| 0 <= j < rules.len() implies executor::may_unite(
                store.get((#[trigger] rules[j]).target),
                rules[j],
            ) by {
                let seen = store.get(rules[j].target);
            }
        }
        let outcome = executor.run(&mut store, policies, max_iterations);
        proof {
            lemma_kinds_kept(before, store);
            if sound {
                assert(executor::goes_on(ids, rules, relations, (max_iterations + 1) as nat)
                    && executor::rounds_fit(rules, relations, max_iterations as nat)
                    ==> executor::exhausts(ids, rules, relations, max_iterations as nat)) by {
                    reveal(executor::exhausts);
                }
                assert forall|count: nat| #[trigger] completes(
                    scc,
                    relations,
                    count,
                    max_iterations,
                ) implies outcome is Ok && outcome->Ok_0.iterations == count by {
                    assert(executor::succeeds(ids, rules, relations, max_iterations as nat)) by {
                        reveal(executor::succeeds);
                        let reached = rounds::after_rounds(rules, relations, count);
                    }
                    assert(outcome is Ok);
                    lemma_settles_once(
                        ids,
                        rules,
                        relations,
                        count,
                        outcome->Ok_0.iterations as nat,
                    );
                }
            }
        }
        match outcome {
            Ok(summary) => {
                let ghost earlier = summaries@;
                let ghost ran = summary.iterations > 0;
                summaries.push(summary);
                proof {
                    if sound {
                        lemma_stays_prepared(before, store, *plan, rules);
                        lemma_after_prefix(sccs, start, earlier, summary, i as int);
                        lemma_is_summary(store, scc, policies, relations, summary);
                        if ran {
                            lemma_numbered(before, rules);
                        }
                        lemma_one_more(sccs, policies, start, earlier, summary, i as int);
                        if whole is Some {
                            lemma_limit_not_met(scc, relations, summary.iterations as nat, max_iterations);
                        }
                    }
                }
            },
            Err(error) => {
                return Err(BinaryExecutionError::Recursion(error));
            },
        }
        i += 1;
    }
    Ok(BinaryExecution { store, summaries })
}

/// Rows of stored relations that can be numbered are as many as their pairs.
proof fn lemma_numbered(store: RelationStore, rules: Seq<RecursiveRulePlan>)
    requires
        store.wf(),
        executor::all_numbered(store, rules),
    ensures
        rounds::rights_numbered(rules, store.pairs()),
{
    reveal(executor::all_numbered);
    assert forall|k: int| 0 <= k < rules.len() implies store.pairs()(
        (#[trigger] rules[k]).right_input,
    ).full.len() <= u32::MAX by {
        assert(executor::is_numbered(store, rules[k]));
        store.lemma_wf(rules[k].right_input);
    }
}

/// One more component that ran.
proof fn lemma_one_more(
    sccs: Seq<BinarySccPlan>,
    policies: IterationPolicies,
    start: rounds::Relations,
    earlier: Seq<SccSummary>,
    summary: SccSummary,
    i: int,
)
    requires
        0 <= i < sccs.len(),
        earlier.len() == i,
        components_settled(sccs, start, earlier, i),
        are_summaries(sccs, policies, start, earlier, i),
        settles_at(
            sccs[i].plan.relations@,
            sccs[i].plan.rules@,
            after_components(sccs, start, earlier, i),
            summary.iterations as nat,
        ),
        is_summary(sccs[i].plan, policies, after_components(sccs, start, earlier, i), summary),
        reads_numbered(sccs, start, earlier, i),
        summary.iterations > 0 ==> rounds::rights_numbered(
            sccs[i].plan.rules@,
            after_components(sccs, start, earlier, i),
        ),
    ensures
        reads_numbered(sccs, start, earlier.push(summary), i + 1),
        components_settled(sccs, start, earlier.push(summary), i + 1),
        are_summaries(sccs, policies, start, earlier.push(summary), i + 1),
{
    let summaries = earlier.push(summary);
    assert forall|j: int| 0 <= j < i + 1 implies settles_at(
        (#[trigger] sccs[j]).plan.relations@,
        sccs[j].plan.rules@,
        after_components(sccs, start, summaries, j),
        summaries[j].iterations as nat,
    ) && is_summary(
        sccs[j].plan,
        policies,
        after_components(sccs, start, summaries, j),
        summaries[j],
    ) && (summaries[j].iterations > 0 ==> rounds::rights_numbered(
        sccs[j].plan.rules@,
        after_components(sccs, start, summaries, j),
    )) by {
        lemma_after_prefix(sccs, start, earlier, summary, j);
        if j < i {
            assert(summaries[j] == earlier[j]);
        }
    }
}

/// What a run reports of its last store is what the rounds reach.
proof fn lemma_is_summary(
    store: RelationStore,
    scc: RecursiveSccPlan,
    policies: IterationPolicies,
    relations: rounds::Relations,
    summary: SccSummary,
)
    requires
        store.wf(),
        is_wide(store),
        store.pairs() == rounds::after_rounds(scc.rules@, relations, summary.iterations as nat),
        executor::lists_rows(store, scc.relations@, summary),
        summary.total_new_rows == execution_general::capped(
            executor::total_count(scc.rules@, relations, summary.iterations as nat),
        ),
        summary.iterations == 0 ==> summary.last_placements@.len() == 0,
        summary.iterations > 0 ==> summary.last_placements@ == executor::round_placements(
            policies,
            scc.rules@,
            rounds::after_rounds(scc.rules@, relations, (summary.iterations - 1) as nat),
        ),
    ensures
        is_summary(scc, policies, relations, summary),
{
    let after = store.pairs();
    assert forall|k: int| 0 <= k < scc.relations@.len() implies {
        &&& (#[trigger] summary.relation_rows@[k]).0 == scc.relations@[k]
        &&& summary.relation_rows@[k].1 == after(scc.relations@[k]).full.len()
    } by {
        let id = scc.relations@[k];
        let row = summary.relation_rows@[k];
        store.lemma_wf(id);
        assert(store.get(id)->0.full.contents().len() >= 2);
    }
    if summary.iterations == 0 {
        assert(summary.last_placements@ =~= Seq::empty());
    }
}

/// A component that settles within the limit does not go on beyond it.
proof fn lemma_limit_not_met(
    scc: RecursiveSccPlan,
    relations: rounds::Relations,
    count: nat,
    limit: usize,
)
    requires
        settles_at(scc.relations@, scc.rules@, relations, count),
        count <= limit,
    ensures
        !executor::goes_on(scc.relations@, scc.rules@, relations, (limit + 1) as nat),
{
    reveal(executor::goes_on);
    let reached = rounds::after_rounds(scc.rules@, relations, count);
    assert(rounds::is_settled(scc.relations@, reached));
}

/// Whether the parts of a component name predicates below a count, and its rules start from its own
/// relations.
spec fn shape_sound(shape: ComponentShape, group: Seq<PredicateId>, count: usize) -> bool {
    &&& forall|k: int|
        0 <= k < shape.seeds.len() ==> seed_in_range(#[trigger] shape.seeds[k], count)
    &&& forall|k: int|
        0 <= k < shape.rules.len() ==> {
            &&& general::relations_of(group).contains((#[trigger] shape.rules[k]).delta_input)
            &&& shape.rules[k].left_key < 2
            &&& shape.rules[k].right_key < 2
            &&& shape.rules[k].output.len() == 2
            &&& shape.rules[k].output[0].column < 2
            &&& shape.rules[k].output[1].column < 2
        }
}

proof fn lemma_shared_in_range(left: ResolvedAtomView, right: ResolvedAtomView)
    requires
        subset::shared_columns(left, right).len() == 1,
    ensures
        subset::shared_columns(left, right)[0].0 < 2,
        subset::shared_columns(left, right)[0].1 < 2,
{
    let keys = subset::shared_columns(left, right);
    assert forall|k: int| 0 <= k < keys.len() implies (#[trigger] keys[k]).0 < 2 && keys[k].1 < 2 by {}
}

/// A rule with a literal over a group has one in its body.
proof fn lemma_recursive_place(body: Seq<ResolvedLiteralView>, group: Seq<PredicateId>)
    requires
        body.len() == 2,
        subset::recursive_count(body, group) == 1,
    ensures
        group.contains(body[0].atom.predicate) || group.contains(body[1].atom.predicate),
{
    reveal_with_fuel(subset::recursive_count, 3);
    let first = body.drop_last();
    assert(first.last() == body[0]);
    assert(first.drop_last().len() == 0);
}

proof fn lemma_with_rule_sound(
    program: ResolvedProgramView,
    shape: ComponentShape,
    at: int,
    group: Seq<PredicateId>,
    count: usize,
)
    requires
        0 <= at < program.rules.len(),
        general::is_predicate_count(program, count as int),
        shape_sound(shape, group, count),
        subset::with_rule(shape, program.rules[at], group) is Ok,
    ensures
        shape_sound(subset::with_rule(shape, program.rules[at], group)->Ok_0, group, count),
{
    let rule = program.rules[at];
    let after = subset::with_rule(shape, rule, group)->Ok_0;
    assert(schedule::mentions(rule, rule.head.predicate));
    assert(general::occurs(program, rule.head.predicate));
    assert forall|k: int| 0 <= k < rule.body.len() implies (#[trigger] rule.body[k]).atom.predicate.0
        < count by {
        assert(schedule::mentions(program.rules[at], rule.body[k].atom.predicate));
        assert(general::occurs(program, rule.body[k].atom.predicate));
    }
    if subset::recursive_count(rule.body, group) == 1 {
        lemma_recursive_place(rule.body, group);
        let found = subset::shape_of(rule, group)->Ok_0;
        let place = if group.contains(rule.body[0].atom.predicate) {
            0int
        } else {
            1
        };
        let left = rule.body[place].atom;
        let right = rule.body[1 - place].atom;
        lemma_shared_in_range(left, right);
        let g = choose|g: int| 0 <= g < group.len() && group[g] == left.predicate;
        assert(general::relations_of(group)[g] == found.delta_input);
    }
}

proof fn lemma_component_sound(
    program: ResolvedProgramView,
    upto: int,
    group: Seq<PredicateId>,
    count: usize,
)
    requires
        0 <= upto <= program.rules.len(),
        general::is_predicate_count(program, count as int),
        subset::component_shape(program.rules.take(upto), group) is Ok,
    ensures
        shape_sound(
            subset::component_shape(program.rules.take(upto), group)->Ok_0,
            group,
            count,
        ),
    decreases upto,
{
    if upto > 0 {
        let taken = program.rules.take(upto);
        assert(taken.drop_last() =~= program.rules.take(upto - 1));
        lemma_component_sound(program, upto - 1, group, count);
        if general::derives_into(taken.last(), group) {
            lemma_with_rule_sound(
                program,
                subset::component_shape(program.rules.take(upto - 1), group)->Ok_0,
                upto - 1,
                group,
                count,
            );
        }
    }
}

/// Every component of a program that is not refused has a shape.
pub proof fn lemma_not_refused(
    rules: Seq<ResolvedRuleView>,
    groups: Seq<Seq<PredicateId>>,
    from: int,
    i: int,
)
    requires
        0 <= from <= i < groups.len(),
        subset::first_refused(rules, groups, from) is None,
    ensures
        subset::component_shape(rules, groups[i]) is Ok,
    decreases i - from,
{
    if from < i {
        lemma_not_refused(rules, groups, from + 1, i);
    }
}

/// The plan of a program that is not refused can be evaluated: it names relations and columns that
/// there are, and its rules start from derived relations.
pub proof fn law_lowered_plan_is_sound(
    program: ResolvedProgramView,
    groups: Seq<Seq<PredicateId>>,
    plan: BinaryProgramPlan,
)
    requires
        subset::refusal_of(program, groups) is None,
        subset::lowers_binary(program, groups, plan),
    ensures
        plan_in_range(plan),
        rules_sound(plan),
{
    let count = plan.predicate_count;
    if count > 0 {
        let p = choose|p: PredicateId| #[trigger] general::occurs(program, p) && p.0 == count - 1;
    }
    general::lemma_facts_counted(program, program.rules.len() as int);
    assert(program.rules.take(program.rules.len() as int) =~= program.rules);
    let tuples = general::fact_tuples(program.rules);
    assert forall|i: int| 0 <= i < plan.facts@.len() implies (#[trigger] plan.facts@[i]).0.0
        < plan.predicate_count by {
        assert(general::occurs(program, PredicateId(tuples[i].0.0)));
    }
    assert forall|i: int| 0 <= i < groups.len() implies #[trigger] shape_sound(
        subset::component_shape(program.rules, groups[i])->Ok_0,
        groups[i],
        count,
    ) by {
        lemma_not_refused(program.rules, groups, 0, i);
        lemma_component_sound(program, program.rules.len() as int, groups[i], count);
    }
    let sccs = plan.recursive_sccs@;
    assert forall|i: int, k: int|
        #![trigger plan.recursive_sccs@[i].seeds@[k]]
        0 <= i < plan.recursive_sccs@.len() && 0 <= k < plan.recursive_sccs@[i].seeds@.len() implies seed_in_range(
        plan.recursive_sccs@[i].seeds@[k]@,
        plan.predicate_count,
    ) by {
        let shape = subset::component_shape(program.rules, groups[i])->Ok_0;
        assert(shape_sound(shape, groups[i], count));
        assert(subset::component_has(sccs[i], groups[i], shape));
        assert(shape.seeds[k] == sccs[i].seeds@[k]@);
    }
    assert forall|i: int, k: int|
        #![trigger plan.recursive_sccs@[i].plan.rules@[k]]
        0 <= i < plan.recursive_sccs@.len() && 0 <= k < plan.recursive_sccs@[i].plan.rules@.len() implies {
        &&& executor::is_binary_rule(plan.recursive_sccs@[i].plan.rules@[k])
        &&& derives(plan.recursive_sccs@, plan.recursive_sccs@[i].plan.rules@[k].delta_input)
    } by {
        let shape = subset::component_shape(program.rules, groups[i])->Ok_0;
        assert(shape_sound(shape, groups[i], count));
        assert(subset::component_has(sccs[i], groups[i], shape));
        assert(subset::has_shape(sccs[i].plan.rules@[k], shape.rules[k]));
        assert(sccs[i].plan.relations@.contains(shape.rules[k].delta_input));
    }
}

} // verus!
