//! Row estimates, join order, and live bindings of clauses.
use vstd::prelude::*;

use crate::ast;
use crate::evaluation;
use crate::relational::{
    BindingId, ClauseView, GeneralProgramPlan, GeneralSccPlan, PlanTerm, PlannedAtom,
    PlannedAtomView, ProgramPlanView, RelationId, RelationVersion, RelationalClausePlan,
    SccPlanView, StratumPlanView,
};
use crate::sorted;

verus! {

/// The number of facts of a relation.
pub open spec fn fact_count(facts: Seq<(RelationId, Seq<u32>)>, relation: RelationId) -> nat
    decreases facts.len(),
{
    if facts.len() == 0 {
        0
    } else {
        fact_count(facts.drop_last(), relation) + if facts.last().0 == relation {
            1nat
        } else {
            0nat
        }
    }
}

/// The number of rows that is expected of each relation.
#[derive(Debug, Clone, PartialEq, Eq)]
pub struct PlanStatistics {
    pub relation_rows: Vec<usize>,
}

impl View for PlanStatistics {
    type V = Seq<usize>;

    open spec fn view(&self) -> Seq<usize> {
        self.relation_rows@
    }
}

/// The number of facts of each relation.
pub open spec fn fact_rows(facts: Seq<(RelationId, Seq<u32>)>, count: usize) -> Seq<usize> {
    Seq::new(
        count as nat,
        |r: int|
            if r <= u32::MAX {
                fact_count(facts, RelationId(r as u32)) as usize
            } else {
                0
            },
    )
}

/// The number of rows expected of a relation; many, where nothing is known of it.
pub open spec fn expected_rows(statistics: Seq<usize>, relation: RelationId) -> usize {
    if (relation.0 as int) < statistics.len() {
        statistics[relation.0 as int]
    } else {
        usize::MAX / 4
    }
}

impl PlanStatistics {
    /// Expects as many rows of a relation as there are facts of it.
    pub fn from_plan(plan: &GeneralProgramPlan) -> (statistics: Self)
        requires
            forall|i: int|
                0 <= i < plan@.facts.len() ==> (#[trigger] plan@.facts[i]).0.0
                    < plan.predicate_count,
        ensures
            statistics@ == fact_rows(plan@.facts, plan.predicate_count),
    {
        let mut relation_rows: Vec<usize> = Vec::new();
        let mut r: usize = 0;
        while r < plan.predicate_count
            invariant
                r <= plan.predicate_count,
                relation_rows@.len() == r,
                forall|j: int| 0 <= j < r ==> #[trigger] relation_rows@[j] == 0,
            decreases plan.predicate_count - r,
        {
            relation_rows.push(0);
            r += 1;
        }
        let ghost facts = plan@.facts;
        let mut i: usize = 0;
        assert(facts.take(0) =~= Seq::empty());
        while i < plan.facts.len()
            invariant
                i <= plan.facts@.len(),
                facts == plan@.facts,
                forall|i: int|
                    0 <= i < facts.len() ==> (#[trigger] facts[i]).0.0 < plan.predicate_count,
                relation_rows@.len() == plan.predicate_count,
                forall|r: int|
                    0 <= r < plan.predicate_count && r <= u32::MAX ==> #[trigger] relation_rows@[r]
                        == fact_count(facts.take(i as int), RelationId(r as u32)),
                forall|r: int|
                    0 <= r < plan.predicate_count ==> #[trigger] relation_rows@[r] <= i,
                forall|r: int|
                    u32::MAX < r < plan.predicate_count ==> #[trigger] relation_rows@[r] == 0,
            decreases plan.facts@.len() - i,
        {
            let relation = plan.facts[i].0;
            let ghost before = relation_rows@;
            assert(facts[i as int].0 == relation);
            let index: usize = relation.0 as usize;
            let rows: usize = relation_rows[index];
            relation_rows[index] = rows + 1;
            proof {
                let taken = facts.take(i + 1);
                assert(taken.drop_last() =~= facts.take(i as int));
                assert(taken.last() == facts[i as int]);
                assert forall|r: int| 0 <= r < plan.predicate_count && r <= u32::MAX implies #[trigger] relation_rows@[r]
                    == fact_count(taken, RelationId(r as u32)) by {
                    assert(before[r] == fact_count(facts.take(i as int), RelationId(r as u32)));
                    if r == index {
                        assert(RelationId(r as u32) == relation);
                    }
                }
                assert forall|r: int| 0 <= r < plan.predicate_count implies #[trigger] relation_rows@[r]
                    <= i + 1 by {
                    assert(before[r] <= i);
                }
                assert forall|r: int| u32::MAX < r < plan.predicate_count implies #[trigger] relation_rows@[r]
                    == 0 by {
                    assert(before[r] == 0);
                }
            }
            i += 1;
        }
        assert(facts.take(facts.len() as int) =~= facts);
        assert(relation_rows@ =~= fact_rows(facts, plan.predicate_count));
        PlanStatistics { relation_rows }
    }

    pub fn rows(&self, relation: RelationId) -> (rows: usize)
        ensures
            rows == expected_rows(self@, relation),
    {
        let index: usize = relation.0 as usize;
        if index < self.relation_rows.len() {
            self.relation_rows[index]
        } else {
            usize::MAX / 4
        }
    }
}

/// A quotient, but at least one.
pub open spec fn share(estimate: usize, parts: usize) -> usize {
    if estimate / parts > 1 {
        estimate / parts
    } else {
        1
    }
}

/// An estimate cut to an eighth for each constant among some terms.
pub open spec fn narrowed(estimate: usize, terms: Seq<PlanTerm>) -> usize
    decreases terms.len(),
{
    if terms.len() == 0 {
        estimate
    } else {
        let earlier = narrowed(estimate, terms.drop_last());
        if terms.last() is Value {
            share(earlier, 8)
        } else {
            earlier
        }
    }
}

/// The number of rows expected of an atom: an unfilled relation counts as large, the newest tuples
/// as a quarter, each constant as an eighth.
pub open spec fn atom_estimate(atom: PlannedAtomView, statistics: Seq<usize>) -> usize {
    let rows = expected_rows(statistics, atom.relation);
    let filled = if rows == 0 {
        usize::MAX / 8
    } else {
        rows
    };
    let current = if atom.version == RelationVersion::Delta {
        share(filled, 4)
    } else {
        filled
    };
    narrowed(current, atom.terms)
}

fn quotient_or_one(estimate: usize, parts: usize) -> (r: usize)
    requires
        parts > 0,
    ensures
        r == share(estimate, parts),
{
    let quotient: usize = estimate / parts;
    if quotient > 1 {
        quotient
    } else {
        1
    }
}

/// The number of rows expected of an atom.
pub fn estimated_atom_rows(atom: &PlannedAtom, statistics: &PlanStatistics) -> (estimate: usize)
    ensures
        estimate == atom_estimate(atom@, statistics@),
{
    let mut estimate: usize = statistics.rows(atom.relation);
    if estimate == 0 {
        estimate = usize::MAX / 8;
    }
    if atom.version == RelationVersion::Delta {
        estimate = quotient_or_one(estimate, 4);
    }
    let ghost base = estimate;
    let mut i: usize = 0;
    assert(atom.terms@.take(0) =~= Seq::empty());
    while i < atom.terms.len()
        invariant
            i <= atom.terms@.len(),
            estimate == narrowed(base, atom.terms@.take(i as int)),
        decreases atom.terms@.len() - i,
    {
        let ghost taken = atom.terms@.take(i + 1);
        assert(taken.drop_last() =~= atom.terms@.take(i as int));
        assert(taken.last() == atom.terms@[i as int]);
        match atom.terms[i] {
            PlanTerm::Value(_) => {
                estimate = quotient_or_one(estimate, 8);
            },
            PlanTerm::Binding(_) => {},
        }
        i += 1;
    }
    assert(atom.terms@.take(atom.terms@.len() as int) =~= atom.terms@);
    estimate
}

/// How unattractive an atom is as the next one to join: detached from what is bound, expected
/// rows, relation.
pub open spec fn join_rank(
    atom: PlannedAtomView,
    chosen: Seq<PlannedAtomView>,
    statistics: Seq<usize>,
) -> (bool, usize, u32) {
    let detached = (exists|b: u32| #[trigger] evaluation::bound_by(chosen, b)) && !(exists|b: u32| #[trigger]
        evaluation::uses(atom.terms, b) && evaluation::bound_by(chosen, b));
    (detached, atom_estimate(atom, statistics), atom.relation.0)
}

/// Whether one rank comes strictly before another.
pub open spec fn rank_less(a: (bool, usize, u32), b: (bool, usize, u32)) -> bool {
    ||| (!a.0 && b.0)
    ||| (a.0 == b.0 && (a.1 < b.1 || (a.1 == b.1 && a.2 < b.2)))
}

/// The position of the first atom with the smallest rank among the first `count`.
pub open spec fn best_position(
    atoms: Seq<PlannedAtomView>,
    chosen: Seq<PlannedAtomView>,
    statistics: Seq<usize>,
    count: nat,
) -> int
    decreases count,
{
    if count <= 1 {
        0
    } else {
        let best = best_position(atoms, chosen, statistics, (count - 1) as nat);
        if rank_less(
            join_rank(atoms[count - 1], chosen, statistics),
            join_rank(atoms[best], chosen, statistics),
        ) {
            count - 1
        } else {
            best
        }
    }
}

proof fn lemma_best_position(
    atoms: Seq<PlannedAtomView>,
    chosen: Seq<PlannedAtomView>,
    statistics: Seq<usize>,
    count: nat,
)
    requires
        0 < count <= atoms.len(),
    ensures
        0 <= best_position(atoms, chosen, statistics, count) < count,
    decreases count,
{
    if count > 1 {
        lemma_best_position(atoms, chosen, statistics, (count - 1) as nat);
    }
}

/// Atoms in the order in which they are joined: each time the best of those that remain.
pub open spec fn join_order(
    remaining: Seq<PlannedAtomView>,
    chosen: Seq<PlannedAtomView>,
    statistics: Seq<usize>,
) -> Seq<PlannedAtomView>
    decreases remaining.len(),
{
    if remaining.len() == 0 {
        chosen
    } else {
        let best = best_position(remaining, chosen, statistics, remaining.len());
        if 0 <= best < remaining.len() {
            join_order(remaining.remove(best), chosen.push(remaining[best]), statistics)
        } else {
            chosen
        }
    }
}

/// The join order holds exactly the given atoms.
pub proof fn lemma_join_order_permutes(
    remaining: Seq<PlannedAtomView>,
    chosen: Seq<PlannedAtomView>,
    statistics: Seq<usize>,
)
    ensures
        join_order(remaining, chosen, statistics).len() == remaining.len() + chosen.len(),
        forall|atom: PlannedAtomView| #[trigger]
            join_order(remaining, chosen, statistics).contains(atom) <==> (remaining.contains(atom)
                || chosen.contains(atom)),
    decreases remaining.len(),
{
    if remaining.len() > 0 {
        lemma_best_position(remaining, chosen, statistics, remaining.len());
        let best = best_position(remaining, chosen, statistics, remaining.len());
        let rest = remaining.remove(best);
        let more = chosen.push(remaining[best]);
        lemma_join_order_permutes(rest, more, statistics);
        let result = join_order(remaining, chosen, statistics);
        assert forall|atom: PlannedAtomView| #[trigger] result.contains(atom) <==> (
        remaining.contains(atom) || chosen.contains(atom)) by {
            if remaining.contains(atom) {
                let k = choose|k: int| 0 <= k < remaining.len() && remaining[k] == atom;
                if k < best {
                    assert(rest[k] == atom);
                } else if k > best {
                    assert(rest[k - 1] == atom);
                } else {
                    assert(more[chosen.len() as int] == atom);
                }
            }
            if chosen.contains(atom) {
                let k = choose|k: int| 0 <= k < chosen.len() && chosen[k] == atom;
                assert(more[k] == atom);
            }
            if rest.contains(atom) {
                let k = choose|k: int| 0 <= k < rest.len() && rest[k] == atom;
                if k < best {
                    assert(remaining[k] == atom);
                } else {
                    assert(remaining[k + 1] == atom);
                }
            }
            if more.contains(atom) {
                let k = choose|k: int| 0 <= k < more.len() && more[k] == atom;
                if k < chosen.len() {
                    assert(chosen[k] == atom);
                } else {
                    assert(remaining[best] == atom);
                }
            }
        }
    } else {
        assert(forall|atom: PlannedAtomView| !remaining.contains(atom));
    }
}

/// Whether bindings are in ascending order, without repetitions.
pub open spec fn ascending_bindings(items: Seq<BindingId>) -> bool {
    forall|i: int, j: int| 0 <= i < j < items.len() ==> items[i].0 < items[j].0
}

/// Whether one clause is another with its atoms in join order and its live bindings listed.
pub open spec fn is_optimized(
    before: ClauseView,
    after: ClauseView,
    statistics: Seq<usize>,
) -> bool {
    &&& after.target == before.target
    &&& after.head == before.head
    &&& after.negative == before.negative
    &&& after.positive == join_order(before.positive, Seq::empty(), statistics)
    &&& evaluation::liveness_exact(after)
    &&& forall|i: int|
        0 <= i < after.live_after.len() ==> ascending_bindings(#[trigger] after.live_after[i])
}

fn contains_id(items: &Vec<u32>, item: u32) -> (found: bool)
    requires
        sorted::ascending(items@),
    ensures
        found == items@.contains(item),
{
    match sorted::position_of(items, item) {
        Some(i) => {
            assert(items@[i as int] == item);
            true
        },
        None => false,
    }
}

/// Whether an atom shares a binding with a list.
fn shares_binding(atom: &PlannedAtom, bound: &Vec<u32>) -> (shares: bool)
    requires
        sorted::ascending(bound@),
    ensures
        shares == exists|b: u32| #[trigger] evaluation::uses(atom@.terms, b) && bound@.contains(b),
{
    let mut i: usize = 0;
    while i < atom.terms.len()
        invariant
            i <= atom.terms@.len(),
            sorted::ascending(bound@),
            forall|j: int|
                0 <= j < i ==> ((#[trigger] atom.terms@[j]) matches PlanTerm::Binding(x)
                    ==> !bound@.contains(x.0)),
        decreases atom.terms@.len() - i,
    {
        match atom.terms[i] {
            PlanTerm::Binding(binding) => {
                if contains_id(bound, binding.0) {
                    assert(atom.terms@[i as int] == PlanTerm::Binding(BindingId(binding.0)));
                    assert(evaluation::uses(atom@.terms, binding.0));
                    return true;
                }
            },
            PlanTerm::Value(_) => {},
        }
        i += 1;
    }
    assert forall|b: u32| #[trigger] evaluation::uses(atom@.terms, b) implies !bound@.contains(b) by {
        let j = choose|j: int|
            0 <= j < atom.terms@.len() && atom.terms@[j] == PlanTerm::Binding(BindingId(b));
        assert(atom.terms@[j] is Binding);
    }
    false
}

/// Adds the bindings of some terms to a list.
fn add_bindings(bound: &mut Vec<u32>, terms: &Vec<PlanTerm>)
    requires
        sorted::ascending(old(bound)@),
    ensures
        sorted::ascending(final(bound)@),
        forall|b: u32| #[trigger]
            final(bound)@.contains(b) <==> (old(bound)@.contains(b) || evaluation::uses(terms@, b)),
{
    let ghost before = bound@;
    let mut i: usize = 0;
    assert(forall|b: u32| !evaluation::uses(terms@.take(0), b));
    while i < terms.len()
        invariant
            i <= terms@.len(),
            sorted::ascending(bound@),
            forall|b: u32| #[trigger]
                bound@.contains(b) <==> (before.contains(b) || evaluation::uses(terms@.take(i as int), b)),
        decreases terms@.len() - i,
    {
        let ghost current = bound@;
        let ghost prefix = terms@.take(i as int);
        let term = terms[i];
        assert(terms@.take(i + 1) =~= prefix.push(term));
        match term {
            PlanTerm::Binding(binding) => {
                sorted::insert_ascending(bound, binding.0);
            },
            PlanTerm::Value(_) => {},
        }
        proof {
            assert forall|b: u32| #[trigger] bound@.contains(b) <==> (before.contains(b) || evaluation::uses(
                terms@.take(i + 1),
                b,
            )) by {
                let t = PlanTerm::Binding(BindingId(b));
                vstd::seq_lib::lemma_seq_contains_after_push(prefix, term, t);
                let longer = prefix.push(term);
                if longer.contains(t) && term != t {
                    let k = choose|k: int| 0 <= k < longer.len() && longer[k] == t;
                    assert(prefix[k] == t);
                }
                assert(current.contains(b) <==> (before.contains(b) || evaluation::uses(prefix, b)));
            }
        }
        i += 1;
    }
    assert(terms@.take(terms@.len() as int) =~= terms@);
}

/// Puts the positive atoms of a clause in join order.
fn order_positive_atoms(clause: &mut RelationalClausePlan, statistics: &PlanStatistics)
    ensures
        final(clause)@.target == old(clause)@.target,
        final(clause)@.head == old(clause)@.head,
        final(clause)@.negative == old(clause)@.negative,
        final(clause)@.positive == join_order(old(clause)@.positive, Seq::empty(), statistics@),
{
    let ghost before = clause@;
    let mut remaining: Vec<PlannedAtom> = Vec::new();
    std::mem::swap(&mut remaining, &mut clause.positive);
    let mut ordered: Vec<PlannedAtom> = Vec::new();
    let mut bound: Vec<u32> = Vec::new();
    proof {
        assert(ast::views(ordered@) =~= Seq::<PlannedAtomView>::empty());
        assert(ast::views(remaining@) == before.positive);
        assert(forall|b: u32| !bound@.contains(b) && !evaluation::bound_by(ast::views(ordered@), b));
    }
    while remaining.len() > 0
        invariant
            sorted::ascending(bound@),
            forall|b: u32| #[trigger] bound@.contains(b) <==> evaluation::bound_by(ast::views(ordered@), b),
            join_order(ast::views(remaining@), ast::views(ordered@), statistics@) == join_order(
                before.positive,
                Seq::empty(),
                statistics@,
            ),
        decreases remaining@.len(),
    {
        let ghost all = ast::views(remaining@);
        let ghost chosen = ast::views(ordered@);
        let mut best: usize = 0;
        let mut best_rank: (bool, usize, u32) = (false, 0, 0);
        let mut i: usize = 0;
        let some_bound = bound.len() > 0;
        proof {
            if bound@.len() > 0 {
                assert(bound@.contains(bound@[0]));
                assert(evaluation::bound_by(chosen, bound@[0]));
            } else {
                assert forall|b: u32| !#[trigger] evaluation::bound_by(chosen, b) by {
                    assert(!bound@.contains(b));
                }
            }
        }
        while i < remaining.len()
            invariant
                i <= remaining@.len(),
                all == ast::views(remaining@),
                chosen == ast::views(ordered@),
                sorted::ascending(bound@),
                forall|b: u32| #[trigger] bound@.contains(b) <==> evaluation::bound_by(chosen, b),
                some_bound == exists|b: u32| #[trigger] evaluation::bound_by(chosen, b),
                i > 0 ==> best < i && best == best_position(all, chosen, statistics@, i as nat)
                    && best_rank == join_rank(all[best as int], chosen, statistics@),
            decreases remaining@.len() - i,
        {
            let atom = &remaining[i];
            assert(all[i as int] == atom@);
            let shares = shares_binding(atom, &bound);
            let estimate: usize = estimated_atom_rows(atom, statistics);
            let rank: (bool, usize, u32) = (some_bound && !shares, estimate, atom.relation.0);
            proof {
                if shares {
                    let b = choose|b: u32| #[trigger] evaluation::uses(atom@.terms, b) && bound@.contains(b);
                    assert(evaluation::bound_by(chosen, b));
                }
                assert(shares == exists|b: u32| #[trigger]
                    evaluation::uses(atom@.terms, b) && evaluation::bound_by(chosen, b)) by {
                    if exists|b: u32| #[trigger] evaluation::uses(atom@.terms, b) && evaluation::bound_by(chosen, b) {
                        let b = choose|b: u32| #[trigger]
                            evaluation::uses(atom@.terms, b) && evaluation::bound_by(chosen, b);
                        assert(bound@.contains(b));
                    }
                }
                assert(rank == join_rank(all[i as int], chosen, statistics@));
            }
            let better = (!rank.0 && best_rank.0) || (rank.0 == best_rank.0 && (rank.1
                < best_rank.1 || (rank.1 == best_rank.1 && rank.2 < best_rank.2)));
            if i == 0 || better {
                best = i;
                best_rank = rank;
            }
            i += 1;
        }
        let ghost old_remaining = remaining@;
        let ghost old_ordered = ordered@;
        let atom = remaining.remove(best);
        let ghost old_bound = bound@;
        add_bindings(&mut bound, &atom.terms);
        let ghost picked = atom@;
        ordered.push(atom);
        proof {
            assert(ast::views(remaining@) =~= all.remove(best as int));
            assert(picked == all[best as int]);
            assert(ast::views(ordered@) =~= chosen.push(picked));
            assert forall|b: u32| #[trigger] bound@.contains(b) <==> evaluation::bound_by(
                ast::views(ordered@),
                b,
            ) by {
                lemma_bound_push(chosen, picked, b);
                assert(old_bound.contains(b) <==> evaluation::bound_by(chosen, b));
            }
        }
    }
    assert(ast::views(remaining@) =~= Seq::<PlannedAtomView>::empty());
    clause.positive = ordered;
}

proof fn lemma_bound_push(atoms: Seq<PlannedAtomView>, atom: PlannedAtomView, b: u32)
    ensures
        evaluation::bound_by(atoms.push(atom), b) <==> (evaluation::bound_by(atoms, b) || evaluation::uses(atom.terms, b)),
{
    let longer = atoms.push(atom);
    if evaluation::bound_by(longer, b) {
        let i = choose|i: int| 0 <= i < longer.len() && evaluation::uses((#[trigger] longer[i]).terms, b);
        if i < atoms.len() {
            assert(atoms[i] == longer[i]);
        }
    }
    if evaluation::bound_by(atoms, b) {
        let i = choose|i: int| 0 <= i < atoms.len() && evaluation::uses((#[trigger] atoms[i]).terms, b);
        assert(longer[i] == atoms[i]);
    }
    assert(longer[atoms.len() as int] == atom);
}

/// Adds the bindings of some atoms to a list.
fn add_atom_bindings(bound: &mut Vec<u32>, atoms: &Vec<PlannedAtom>, start: usize, end: usize)
    requires
        start <= end <= atoms@.len(),
        sorted::ascending(old(bound)@),
    ensures
        sorted::ascending(final(bound)@),
        forall|b: u32| #[trigger]
            final(bound)@.contains(b) <==> (old(bound)@.contains(b) || evaluation::bound_by(
                ast::views(atoms@).subrange(start as int, end as int),
                b,
            )),
{
    let ghost before = bound@;
    let ghost all = ast::views(atoms@);
    let mut i: usize = start;
    assert(forall|b: u32| !evaluation::bound_by(all.subrange(start as int, start as int), b));
    while i < end
        invariant
            start <= i <= end <= atoms@.len(),
            all == ast::views(atoms@),
            sorted::ascending(bound@),
            forall|b: u32| #[trigger]
                bound@.contains(b) <==> (before.contains(b) || evaluation::bound_by(
                    all.subrange(start as int, i as int),
                    b,
                )),
        decreases end - i,
    {
        let ghost current = bound@;
        let ghost prefix = all.subrange(start as int, i as int);
        add_bindings(bound, &atoms[i].terms);
        proof {
            assert(all[i as int] == atoms@[i as int]@);
            assert(all.subrange(start as int, i + 1) =~= prefix.push(all[i as int]));
            assert forall|b: u32| #[trigger] bound@.contains(b) <==> (before.contains(b)
                || evaluation::bound_by(all.subrange(start as int, i + 1), b)) by {
                lemma_bound_push(prefix, all[i as int], b);
                assert(current.contains(b) <==> (before.contains(b) || evaluation::bound_by(prefix, b)));
            }
        }
        i += 1;
    }
}

/// The bindings that are still needed after each positive atom, in ascending order.
fn live_bindings(clause: &RelationalClausePlan) -> (live_after: Vec<Vec<BindingId>>)
    ensures
        live_after@.len() == clause@.positive.len(),
        forall|i: int, b: u32|
            #![trigger live_after@[i]@.contains(BindingId(b))]
            0 <= i < clause@.positive.len() ==> (live_after@[i]@.contains(BindingId(b))
                <==> evaluation::is_live(clause@, i + 1, b)),
        forall|i: int|
            0 <= i < live_after@.len() ==> ascending_bindings((#[trigger] live_after@[i])@),
{
    let mut live_after: Vec<Vec<BindingId>> = Vec::new();
    let ghost view = clause@;
    let ghost atoms = view.positive;
    let count: usize = clause.positive.len();
    let mut position: usize = 0;
    while position < count
        invariant
            position <= count,
            count == clause.positive@.len(),
            view == clause@,
            atoms == view.positive,
            live_after@.len() == position,
            forall|i: int, b: u32|
                #![trigger live_after@[i]@.contains(BindingId(b))]
                0 <= i < position ==> (live_after@[i]@.contains(BindingId(b)) <==> evaluation::is_live(
                    view,
                    i + 1,
                    b,
                )),
            forall|i: int|
                0 <= i < live_after@.len() ==> ascending_bindings((#[trigger] live_after@[i])@),
        decreases count - position,
    {
        let mut introduced: Vec<u32> = Vec::new();
        add_atom_bindings(&mut introduced, &clause.positive, 0, position + 1);
        let mut needed: Vec<u32> = Vec::new();
        add_bindings(&mut needed, &clause.head);
        let ghost needed_head = needed@;
        add_atom_bindings(&mut needed, &clause.negative, 0, clause.negative.len());
        let ghost needed_negative = needed@;
        add_atom_bindings(&mut needed, &clause.positive, position + 1, count);
        proof {
            assert(atoms.subrange(0, position + 1) =~= atoms.take(position + 1));
            assert(atoms.subrange(position + 1, count as int) =~= atoms.skip(position + 1));
            assert(view.negative.subrange(0, view.negative.len() as int) =~= view.negative);
            assert forall|b: u32| #[trigger] needed@.contains(b) <==> evaluation::needed_after(
                view,
                position + 1,
                b,
            ) by {
                assert(needed_negative.contains(b) <==> (needed_head.contains(b) || evaluation::bound_by(
                    view.negative,
                    b,
                )));
                assert(needed_head.contains(b) <==> evaluation::uses(view.head, b));
            }
            assert forall|b: u32| #[trigger] introduced@.contains(b) <==> evaluation::bound_by(
                atoms.take(position + 1),
                b,
            ) by {}
        }
        let mut live: Vec<BindingId> = Vec::new();
        let mut k: usize = 0;
        while k < needed.len()
            invariant
                k <= needed@.len(),
                sorted::ascending(needed@),
                sorted::ascending(introduced@),
                ascending_bindings(live@),
                forall|j: int|
                    0 <= j < live@.len() && k < needed@.len() ==> (#[trigger] live@[j]).0
                        < needed@[k as int],
                forall|b: u32| #[trigger]
                    live@.contains(BindingId(b)) <==> needed@.take(k as int).contains(b)
                        && introduced@.contains(b),
            decreases needed@.len() - k,
        {
            let item: u32 = needed[k];
            let ghost before = live@;
            let ghost prefix = needed@.take(k as int);
            assert(needed@.take(k + 1) =~= prefix.push(item));
            if contains_id(&introduced, item) {
                live.push(BindingId(item));
            }
            proof {
                assert forall|b: u32| #[trigger] live@.contains(BindingId(b)) <==> needed@.take(
                    k + 1,
                ).contains(b) && introduced@.contains(b) by {
                    vstd::seq_lib::lemma_seq_contains_after_push(prefix, item, b);
                    vstd::seq_lib::lemma_seq_contains_after_push(
                        before,
                        BindingId(item),
                        BindingId(b),
                    );
                    let longer = prefix.push(item);
                    if longer.contains(b) && item != b {
                        let m = choose|m: int| 0 <= m < longer.len() && longer[m] == b;
                        assert(prefix[m] == b);
                    }
                    let more = before.push(BindingId(item));
                    if more.contains(BindingId(b)) && item != b {
                        let m = choose|m: int| 0 <= m < more.len() && more[m] == BindingId(b);
                        assert(before[m] == BindingId(b));
                    }
                    assert(before.contains(BindingId(b)) <==> prefix.contains(b)
                        && introduced@.contains(b));
                }
                if k + 1 < needed@.len() {
                    assert(needed@[k as int] < needed@[k + 1]);
                }
            }
            k += 1;
        }
        proof {
            assert(needed@.take(needed@.len() as int) =~= needed@);
            assert forall|b: u32| #[trigger] live@.contains(BindingId(b)) <==> evaluation::is_live(
                view,
                position + 1,
                b,
            ) by {
                assert(needed@.contains(b) <==> evaluation::needed_after(view, position + 1, b));
                assert(introduced@.contains(b) <==> evaluation::bound_by(atoms.take(position + 1), b));
            }
        }
        let ghost earlier = live_after@;
        live_after.push(live);
        assert(forall|i: int| 0 <= i < position ==> #[trigger] live_after@[i] == earlier[i]);
        position += 1;
    }
    live_after
}

fn optimize_clause(clause: &mut RelationalClausePlan, statistics: &PlanStatistics)
    ensures
        is_optimized(old(clause)@, final(clause)@, statistics@),
{
    order_positive_atoms(clause, statistics);
    let ghost ordered = clause@;
    let live_after = live_bindings(clause);
    clause.live_after = live_after;
    proof {
        assert forall|i: int, b: u32|
            #![trigger clause@.live_after[i].contains(BindingId(b))]
            0 <= i < clause@.positive.len() implies (clause@.live_after[i].contains(BindingId(b))
            <==> evaluation::is_live(clause@, i + 1, b)) by {
            assert(clause@.live_after[i] == live_after@[i]@);
            assert(evaluation::is_live(clause@, i + 1, b) == evaluation::is_live(ordered, i + 1, b));
        }
        assert forall|i: int| 0 <= i < clause@.live_after.len() implies ascending_bindings(
            #[trigger] clause@.live_after[i],
        ) by {
            assert(clause@.live_after[i] == live_after@[i]@);
        }
    }
}

/// Whether clauses are others, optimized one by one.
pub open spec fn all_optimized(
    before: Seq<ClauseView>,
    after: Seq<ClauseView>,
    statistics: Seq<usize>,
) -> bool {
    &&& after.len() == before.len()
    &&& forall|c: int|
        0 <= c < before.len() ==> is_optimized(before[c], #[trigger] after[c], statistics)
}

fn optimize_clauses(clauses: &mut Vec<RelationalClausePlan>, statistics: &PlanStatistics)
    ensures
        all_optimized(ast::views(old(clauses)@), ast::views(final(clauses)@), statistics@),
{
    let ghost before = clauses@;
    let mut c: usize = 0;
    while c < clauses.len()
        invariant
            c <= clauses@.len(),
            clauses@.len() == before.len(),
            forall|j: int|
                0 <= j < c ==> is_optimized(before[j]@, (#[trigger] clauses@[j])@, statistics@),
            forall|j: int| c <= j < before.len() ==> #[trigger] clauses@[j] == before[j],
        decreases clauses@.len() - c,
    {
        optimize_clause(&mut clauses[c], statistics);
        c += 1;
    }
    assert forall|j: int| 0 <= j < before.len() implies is_optimized(
        ast::views(before)[j],
        #[trigger] ast::views(clauses@)[j],
        statistics@,
    ) by {
        assert(is_optimized(before[j]@, clauses@[j]@, statistics@));
    }
}

/// Whether one component plan is another with optimized clauses.
pub open spec fn scc_optimized(
    before: SccPlanView,
    after: SccPlanView,
    statistics: Seq<usize>,
) -> bool {
    &&& after.relations == before.relations
    &&& after.recursive == before.recursive
    &&& all_optimized(before.seeds, after.seeds, statistics)
    &&& all_optimized(before.recursive_variants, after.recursive_variants, statistics)
}

/// Whether one stratum plan is another with optimized clauses.
pub open spec fn stratum_optimized(
    before: StratumPlanView,
    after: StratumPlanView,
    statistics: Seq<usize>,
) -> bool {
    &&& after.index == before.index
    &&& after.sccs.len() == before.sccs.len()
    &&& forall|k: int|
        0 <= k < before.sccs.len() ==> scc_optimized(
            before.sccs[k],
            #[trigger] after.sccs[k],
            statistics,
        )
}

/// Whether one program plan is another with optimized clauses.
pub open spec fn plan_optimized(
    before: ProgramPlanView,
    after: ProgramPlanView,
    statistics: Seq<usize>,
) -> bool {
    &&& after.predicate_count == before.predicate_count
    &&& after.facts == before.facts
    &&& after.outputs == before.outputs
    &&& after.strata.len() == before.strata.len()
    &&& forall|s: int|
        0 <= s < before.strata.len() ==> stratum_optimized(
            before.strata[s],
            #[trigger] after.strata[s],
            statistics,
        )
}

fn optimize_sccs(sccs: &mut Vec<GeneralSccPlan>, statistics: &PlanStatistics)
    ensures
        final(sccs)@.len() == old(sccs)@.len(),
        forall|k: int|
            0 <= k < old(sccs)@.len() ==> scc_optimized(
                old(sccs)@[k]@,
                (#[trigger] final(sccs)@[k])@,
                statistics@,
            ),
{
    let ghost before = sccs@;
    let mut k: usize = 0;
    while k < sccs.len()
        invariant
            k <= sccs@.len(),
            sccs@.len() == before.len(),
            forall|j: int|
                0 <= j < k ==> scc_optimized(before[j]@, (#[trigger] sccs@[j])@, statistics@),
            forall|j: int| k <= j < before.len() ==> #[trigger] sccs@[j] == before[j],
        decreases sccs@.len() - k,
    {
        optimize_clauses(&mut sccs[k].seeds, statistics);
        optimize_clauses(&mut sccs[k].recursive_variants, statistics);
        k += 1;
    }
}

/// Puts the atoms of every clause in join order and lists the live bindings.
pub fn optimize_general(plan: &mut GeneralProgramPlan, statistics: &PlanStatistics)
    ensures
        plan_optimized(old(plan)@, final(plan)@, statistics@),
{
    let ghost before = plan.strata@;
    let ghost old_plan = plan@;
    let mut s: usize = 0;
    while s < plan.strata.len()
        invariant
            s <= plan.strata@.len(),
            plan.strata@.len() == before.len(),
            plan.predicate_count == old_plan.predicate_count,
            plan@.facts == old_plan.facts,
            plan@.outputs == old_plan.outputs,
            forall|j: int|
                0 <= j < s ==> stratum_optimized(
                    before[j]@,
                    (#[trigger] plan.strata@[j])@,
                    statistics@,
                ),
            forall|j: int| s <= j < before.len() ==> #[trigger] plan.strata@[j] == before[j],
        decreases plan.strata@.len() - s,
    {
        let ghost current = plan.strata@[s as int];
        optimize_sccs(&mut plan.strata[s].sccs, statistics);
        proof {
            let updated = plan.strata@[s as int];
            assert forall|k: int| 0 <= k < current@.sccs.len() implies scc_optimized(
                current@.sccs[k],
                #[trigger] updated@.sccs[k],
                statistics@,
            ) by {
                assert(scc_optimized(current.sccs@[k]@, updated.sccs@[k]@, statistics@));
            }
            assert(stratum_optimized(current@, updated@, statistics@));
        }
        s += 1;
    }
    proof {
        assert(old_plan.strata == ast::views(before));
        assert forall|j: int| 0 <= j < before.len() implies stratum_optimized(
            old_plan.strata[j],
            #[trigger] plan@.strata[j],
            statistics@,
        ) by {
            assert(stratum_optimized(before[j]@, plan.strata@[j]@, statistics@));
        }
    }
}

} // verus!
