//! What a clause derives from a store of tuples, and its evaluation.
use vstd::prelude::*;

use crate::ast;
use crate::relational::{
    BindingId, ClauseView, PlanTerm, PlannedAtom, PlannedAtomView, RelationId, RelationVersion,
    RelationalClausePlan,
};
use crate::tuples::TupleSet;

verus! {

/// The tuples of every relation, and those added last.
#[verifier::ext_equal]
pub struct StoreView {
    pub full: Seq<Set<Seq<u32>>>,
    pub delta: Seq<Set<Seq<u32>>>,
}

/// The tuples of every relation during an evaluation.
#[derive(Debug, Clone, PartialEq, Eq)]
pub struct TupleStore {
    pub(crate) full: Vec<TupleSet>,
    pub(crate) delta: Vec<TupleSet>,
}

impl View for TupleStore {
    type V = StoreView;

    closed spec fn view(&self) -> StoreView {
        StoreView { full: ast::views(self.full@), delta: ast::views(self.delta@) }
    }
}

impl TupleStore {
    /// Whether every relation is in order and has a list of newest tuples.
    pub closed spec fn wf(&self) -> bool {
        &&& self.full@.len() == self.delta@.len()
        &&& forall|i: int| 0 <= i < self.full@.len() ==> (#[trigger] self.full@[i]).wf()
        &&& forall|i: int| 0 <= i < self.delta@.len() ==> (#[trigger] self.delta@[i]).wf()
    }

    /// The tuples of a relation in ascending order.
    pub closed spec fn listed(&self, relation: RelationId) -> Seq<Seq<u32>> {
        self.full@[relation.0 as int].listed()
    }

    pub proof fn lemma_wf(&self)
        requires
            self.wf(),
        ensures
            self@.full.len() == self@.delta.len(),
            self@.full.len() <= usize::MAX,
    {
        assert(self.full.len() == self@.full.len());
    }

    /// Every relation empty.
    pub fn empty(count: usize) -> (store: Self)
        ensures
            store.wf(),
            store@.full.len() == count,
            store@.delta.len() == count,
            forall|i: int| 0 <= i < count ==> #[trigger] store@.full[i] == Set::<Seq<u32>>::empty(),
            forall|i: int| 0 <= i < count ==> #[trigger] store@.delta[i] == Set::<Seq<u32>>::empty(),
    {
        let mut full: Vec<TupleSet> = Vec::new();
        let mut delta: Vec<TupleSet> = Vec::new();
        let mut i: usize = 0;
        while i < count
            invariant
                i <= count,
                full@.len() == i,
                delta@.len() == i,
                forall|j: int|
                    0 <= j < i ==> (#[trigger] full@[j]).wf() && full@[j]@ == Set::<
                        Seq<u32>,
                    >::empty(),
                forall|j: int|
                    0 <= j < i ==> (#[trigger] delta@[j]).wf() && delta@[j]@ == Set::<
                        Seq<u32>,
                    >::empty(),
            decreases count - i,
        {
            full.push(TupleSet::new());
            delta.push(TupleSet::new());
            i += 1;
        }
        TupleStore { full, delta }
    }

    /// The tuples of a relation, if the store has that relation.
    pub fn rows(&self, relation: RelationId) -> (rows: Option<&TupleSet>)
        requires
            self.wf(),
        ensures
            rows is Some <==> (relation.0 as int) < self@.full.len(),
            rows matches Some(set) ==> {
                &&& set.wf()
                &&& set@ == self@.full[relation.0 as int]
                &&& set.listed() == self.listed(relation)
            },
    {
        let index: usize = relation.0 as usize;
        if index < self.full.len() {
            Some(&self.full[index])
        } else {
            None
        }
    }

    /// The newest tuples of a relation, if the store has that relation.
    pub fn delta(&self, relation: RelationId) -> (rows: Option<&TupleSet>)
        requires
            self.wf(),
        ensures
            rows is Some <==> (relation.0 as int) < self@.delta.len(),
            rows matches Some(set) ==> set.wf() && set@ == self@.delta[relation.0 as int],
    {
        let index: usize = relation.0 as usize;
        if index < self.delta.len() {
            Some(&self.delta[index])
        } else {
            None
        }
    }

    /// Adds a tuple to a relation.
    pub(crate) fn add(&mut self, relation: RelationId, tuple: Vec<u32>)
        requires
            old(self).wf(),
            (relation.0 as int) < old(self)@.full.len(),
        ensures
            final(self).wf(),
            final(self)@.full == old(self)@.full.update(
                relation.0 as int,
                old(self)@.full[relation.0 as int].insert(tuple@),
            ),
            final(self)@.delta == old(self)@.delta,
    {
        let index: usize = relation.0 as usize;
        let ghost before = self@;
        let ghost value = tuple@;
        self.full[index].insert(tuple);
        assert(self@.full =~= before.full.update(
            index as int,
            before.full[index as int].insert(value),
        ));
        assert(self@.delta =~= before.delta);
    }

    /// Adds tuples to a relation.
    pub(crate) fn add_all(&mut self, relation: RelationId, tuples: &TupleSet)
        requires
            old(self).wf(),
            tuples.wf(),
            (relation.0 as int) < old(self)@.full.len(),
        ensures
            final(self).wf(),
            final(self)@.full == old(self)@.full.update(
                relation.0 as int,
                old(self)@.full[relation.0 as int].union(tuples@),
            ),
            final(self)@.delta == old(self)@.delta,
    {
        let index: usize = relation.0 as usize;
        let ghost before = self@;
        self.full[index].extend(tuples);
        assert(self@.full =~= before.full.update(
            index as int,
            before.full[index as int].union(tuples@),
        ));
        assert(self@.delta =~= before.delta);
    }

    /// Replaces the newest tuples of a relation.
    pub(crate) fn set_delta(&mut self, relation: RelationId, tuples: TupleSet)
        requires
            old(self).wf(),
            tuples.wf(),
            (relation.0 as int) < old(self)@.full.len(),
        ensures
            final(self).wf(),
            final(self)@.full == old(self)@.full,
            final(self)@.delta == old(self)@.delta.update(relation.0 as int, tuples@),
    {
        let index: usize = relation.0 as usize;
        let ghost before = self@;
        let ghost value = tuples@;
        self.delta[index] = tuples;
        assert(self@.delta =~= before.delta.update(index as int, value));
        assert(self@.full =~= before.full);
    }
}

/// The value of a term under an assignment of values to bindings.
pub open spec fn term_value(term: PlanTerm, v: spec_fn(u32) -> u32) -> u32 {
    match term {
        PlanTerm::Binding(binding) => v(binding.0),
        PlanTerm::Value(value) => value,
    }
}

/// The tuple that terms denote under an assignment.
pub open spec fn instance(terms: Seq<PlanTerm>, v: spec_fn(u32) -> u32) -> Seq<u32> {
    Seq::new(terms.len(), |i: int| term_value(terms[i], v))
}

/// Whether terms hold a binding.
pub open spec fn uses(terms: Seq<PlanTerm>, binding: u32) -> bool {
    terms.contains(PlanTerm::Binding(BindingId(binding)))
}

/// Whether some atom holds a binding.
pub open spec fn bound_by(atoms: Seq<PlannedAtomView>, binding: u32) -> bool {
    exists|i: int| 0 <= i < atoms.len() && uses((#[trigger] atoms[i]).terms, binding)
}

/// The tuples that a positive atom ranges over.
pub open spec fn rows_of(store: StoreView, atom: PlannedAtomView) -> Set<Seq<u32>> {
    match atom.version {
        RelationVersion::Full => store.full[atom.relation.0 as int],
        RelationVersion::Delta => store.delta[atom.relation.0 as int],
        RelationVersion::Newt => Set::empty(),
    }
}

/// Whether an assignment turns every atom into one of its tuples.
pub open spec fn joins(
    atoms: Seq<PlannedAtomView>,
    store: StoreView,
    v: spec_fn(u32) -> u32,
) -> bool {
    forall|i: int|
        0 <= i < atoms.len() ==> rows_of(store, #[trigger] atoms[i]).contains(
            instance(atoms[i].terms, v),
        )
}

/// Whether two assignments agree on the bindings of some atoms.
pub open spec fn agree_on(
    atoms: Seq<PlannedAtomView>,
    v: spec_fn(u32) -> u32,
    w: spec_fn(u32) -> u32,
) -> bool {
    forall|b: u32| #[trigger] bound_by(atoms, b) ==> v(b) == w(b)
}

/// Whether a negated atom matches a tuple, where the positive atoms fix what they bind.
pub open spec fn blocked(
    atom: PlannedAtomView,
    positive: Seq<PlannedAtomView>,
    store: StoreView,
    v: spec_fn(u32) -> u32,
) -> bool {
    exists|w: spec_fn(u32) -> u32| #[trigger]
        agree_on(positive, v, w) && store.full[atom.relation.0 as int].contains(
            instance(atom.terms, w),
        )
}

/// Whether an assignment satisfies the body of a clause.
pub open spec fn clause_holds(
    clause: ClauseView,
    store: StoreView,
    v: spec_fn(u32) -> u32,
) -> bool {
    &&& joins(clause.positive, store, v)
    &&& forall|j: int|
        0 <= j < clause.negative.len() ==> !blocked(
            #[trigger] clause.negative[j],
            clause.positive,
            store,
            v,
        )
}

/// The head tuples of all assignments that satisfy the body of a clause.
pub open spec fn clause_result(clause: ClauseView, store: StoreView) -> Set<Seq<u32>> {
    Set::new(
        |t: Seq<u32>|
            exists|v: spec_fn(u32) -> u32| #[trigger]
                clause_holds(clause, store, v) && t == instance(clause.head, v),
    )
}

/// What the clauses of one relation derive.
pub open spec fn derived(
    clauses: Seq<ClauseView>,
    store: StoreView,
    relation: RelationId,
) -> Set<Seq<u32>> {
    Set::new(
        |t: Seq<u32>|
            exists|c: int|
                0 <= c < clauses.len() && (#[trigger] clauses[c]).target == relation
                    && clause_result(clauses[c], store).contains(t),
    )
}

/// Whether something after the first `count` positive atoms needs a binding.
pub open spec fn needed_after(clause: ClauseView, count: int, binding: u32) -> bool {
    ||| uses(clause.head, binding)
    ||| bound_by(clause.negative, binding)
    ||| bound_by(clause.positive.skip(count), binding)
}

/// Whether the first `count` positive atoms bind what something after them needs.
pub open spec fn is_live(clause: ClauseView, count: int, binding: u32) -> bool {
    bound_by(clause.positive.take(count), binding) && needed_after(clause, count, binding)
}

/// Whether a clause lists the live bindings after each positive atom, perhaps among others.
pub open spec fn liveness_known(clause: ClauseView) -> bool {
    &&& clause.live_after.len() >= clause.positive.len()
    &&& forall|i: int, b: u32|
        #![trigger clause.live_after[i].contains(BindingId(b))]
        0 <= i < clause.positive.len() && is_live(clause, i + 1, b)
            ==> clause.live_after[i].contains(BindingId(b))
}

/// Whether a clause lists exactly the live bindings after each positive atom.
pub open spec fn liveness_exact(clause: ClauseView) -> bool {
    &&& clause.live_after.len() == clause.positive.len()
    &&& forall|i: int, b: u32|
        #![trigger clause.live_after[i].contains(BindingId(b))]
        0 <= i < clause.positive.len() ==> (clause.live_after[i].contains(BindingId(b))
            <==> is_live(clause, i + 1, b))
}

/// Whether bindings can be counted in a `usize`.
pub open spec fn bindings_fit(terms: Seq<PlanTerm>) -> bool {
    forall|b: u32| #[trigger] uses(terms, b) ==> b < usize::MAX
}

/// Whether an atom reads tuples of a store with `count` relations.
pub open spec fn atom_valid(atom: PlannedAtomView, count: int) -> bool {
    &&& (atom.relation.0 as int) < count
    &&& bindings_fit(atom.terms)
}

/// Whether a clause can be evaluated on a store with `count` relations: every head binding is
/// bound by a positive atom, and the live bindings are known.
pub open spec fn clause_valid(clause: ClauseView, count: int) -> bool {
    &&& (clause.target.0 as int) < count
    &&& bindings_fit(clause.head)
    &&& forall|i: int|
        0 <= i < clause.positive.len() ==> atom_valid(#[trigger] clause.positive[i], count)
            && clause.positive[i].version != RelationVersion::Newt
    &&& forall|i: int|
        0 <= i < clause.negative.len() ==> atom_valid(#[trigger] clause.negative[i], count)
    &&& forall|b: u32| #[trigger] uses(clause.head, b) ==> bound_by(clause.positive, b)
    &&& liveness_known(clause)
}

/// A partial assignment: the values of the first bindings, as far as they are set.
type Row = Seq<Option<u32>>;

/// Whether an assignment agrees with every value that a row sets.
spec fn extends(row: Row, w: spec_fn(u32) -> u32) -> bool {
    forall|b: int| 0 <= b < row.len() && (#[trigger] row[b]) is Some ==> row[b] == Some(w(b as u32))
}

/// A row with the bindings of some terms set by an assignment.
spec fn widened(row: Row, terms: Seq<PlanTerm>, w: spec_fn(u32) -> u32) -> Row {
    Seq::new(
        row.len(),
        |b: int|
            if row[b] is Some || uses(terms, b as u32) {
                Some(w(b as u32))
            } else {
                None
            },
    )
}

/// Whether a tuple extends a row through the terms of an atom to another row.
spec fn matched(row: Row, terms: Seq<PlanTerm>, tuple: Seq<u32>, result: Row) -> bool {
    exists|w: spec_fn(u32) -> u32| #[trigger]
        extends(row, w) && instance(terms, w) == tuple && result == widened(row, terms, w)
}

proof fn lemma_matched_unique(
    row: Row,
    terms: Seq<PlanTerm>,
    tuple: Seq<u32>,
    a: Row,
    b: Row,
)
    requires
        row.len() <= u32::MAX + 1,
        matched(row, terms, tuple, a),
        matched(row, terms, tuple, b),
    ensures
        a == b,
{
    let v = choose|w: spec_fn(u32) -> u32| #[trigger]
        extends(row, w) && instance(terms, w) == tuple && a == widened(row, terms, w);
    let w = choose|w: spec_fn(u32) -> u32| #[trigger]
        extends(row, w) && instance(terms, w) == tuple && b == widened(row, terms, w);
    assert forall|i: int| 0 <= i < row.len() implies a[i] == b[i] by {
        if row[i] is Some {
        } else if uses(terms, i as u32) {
            lemma_instances_agree(terms, v, w, i as u32);
        }
    }
    assert(a =~= b);
}

proof fn lemma_instances_agree(
    terms: Seq<PlanTerm>,
    v: spec_fn(u32) -> u32,
    w: spec_fn(u32) -> u32,
    b: u32,
)
    requires
        instance(terms, v) == instance(terms, w),
        uses(terms, b),
    ensures
        v(b) == w(b),
{
    let k = choose|k: int| 0 <= k < terms.len() && terms[k] == PlanTerm::Binding(BindingId(b));
    assert(instance(terms, v)[k] == v(b));
    assert(instance(terms, w)[k] == w(b));
}

/// Assignments that agree on the bindings of terms give the same tuple.
pub proof fn lemma_instance_depends(
    terms: Seq<PlanTerm>,
    v: spec_fn(u32) -> u32,
    w: spec_fn(u32) -> u32,
)
    requires
        forall|b: u32| #[trigger] uses(terms, b) ==> v(b) == w(b),
    ensures
        instance(terms, v) == instance(terms, w),
{
    assert forall|i: int| 0 <= i < terms.len() implies term_value(terms[i], v) == term_value(
        terms[i],
        w,
    ) by {
        match terms[i] {
            PlanTerm::Binding(binding) => {
                assert(terms.contains(PlanTerm::Binding(BindingId(binding.0))));
                assert(uses(terms, binding.0));
            },
            PlanTerm::Value(_) => {},
        }
    }
    assert(instance(terms, v) =~= instance(terms, w));
}

/// Matches a tuple against the terms of an atom, setting the bindings that are still free.
fn match_atom(binding: &mut Vec<Option<u32>>, terms: &Vec<PlanTerm>, tuple: &Vec<u32>) -> (r: bool)
    requires
        old(binding)@.len() <= u32::MAX + 1,
        terms@.len() == tuple@.len(),
        forall|b: u32| #[trigger] uses(terms@, b) ==> b < old(binding)@.len(),
    ensures
        final(binding)@.len() == old(binding)@.len(),
        r ==> matched(old(binding)@, terms@, tuple@, final(binding)@),
        !r ==> forall|result: Row| !#[trigger] matched(old(binding)@, terms@, tuple@, result),
{
    let ghost before = binding@;
    let mut i: usize = 0;
    while i < terms.len()
        invariant
            i <= terms@.len(),
            terms@.len() == tuple@.len(),
            before == old(binding)@,
            before.len() <= u32::MAX + 1,
            binding@.len() == before.len(),
            forall|b: u32| #[trigger] uses(terms@, b) ==> b < before.len(),
            forall|b: int|
                0 <= b < before.len() ==> ((#[trigger] binding@[b]) is Some <==> (before[b] is Some
                    || uses(terms@.take(i as int), b as u32))),
            forall|w: spec_fn(u32) -> u32|
                #![trigger extends(before, w)]
                #![trigger extends(binding@, w)]
                extends(binding@, w) <==> (extends(before, w) && forall|j: int|
                    0 <= j < i ==> term_value(#[trigger] terms@[j], w) == tuple@[j]),
        decreases terms@.len() - i,
    {
        let term = terms[i];
        let value: u32 = tuple[i];
        let ghost current = binding@;
        let ghost prefix = terms@.take(i as int);
        assert(terms@.take(i + 1) =~= prefix.push(term));
        match term {
            PlanTerm::Value(expected) => {
                if expected != value {
                    proof {
                        assert forall|result: Row| !#[trigger] matched(
                            before,
                            terms@,
                            tuple@,
                            result,
                        ) by {
                            assert forall|w: spec_fn(u32) -> u32| #[trigger]
                                extends(before, w) implies instance(terms@, w) != tuple@ by {
                                assert(instance(terms@, w)[i as int] == expected);
                            }
                        }
                    }
                    return false;
                }
                proof {
                    assert forall|b: int| 0 <= b < before.len() implies ((
                    #[trigger] binding@[b]) is Some <==> (before[b] is Some || uses(
                        terms@.take(i + 1),
                        b as u32,
                    ))) by {
                        lemma_uses_push(prefix, term, b as u32);
                    }
                    assert forall|w: spec_fn(u32) -> u32|
                        #![trigger extends(before, w)]
                        #![trigger extends(binding@, w)]
                        extends(binding@, w) <==> (extends(before, w) && forall|j: int|
                            0 <= j < i + 1 ==> term_value(#[trigger] terms@[j], w)
                                == tuple@[j]) by {
                        assert(term_value(terms@[i as int], w) == value);
                    }
                }
            },
            PlanTerm::Binding(id) => {
                assert(terms@[i as int] == PlanTerm::Binding(BindingId(id.0)));
                assert(uses(terms@, id.0));
                let slot: usize = id.0 as usize;
                match binding[slot] {
                    Some(expected) => {
                        if expected != value {
                            proof {
                                assert forall|result: Row| !#[trigger] matched(
                                    before,
                                    terms@,
                                    tuple@,
                                    result,
                                ) by {
                                    assert forall|w: spec_fn(u32) -> u32| #[trigger]
                                        extends(before, w) implies instance(terms@, w)
                                        != tuple@ by {
                                        if instance(terms@, w) == tuple@ {
                                            assert forall|j: int| 0 <= j < i implies term_value(
                                                #[trigger] terms@[j],
                                                w,
                                            ) == tuple@[j] by {
                                                assert(instance(terms@, w)[j] == tuple@[j]);
                                            }
                                            assert(extends(current, w));
                                            assert(current[slot as int] is Some);
                                            assert(instance(terms@, w)[i as int] == w(id.0));
                                        }
                                    }
                                }
                            }
                            return false;
                        }
                        proof {
                            assert forall|b: int| 0 <= b < before.len() implies ((
                            #[trigger] binding@[b]) is Some <==> (before[b] is Some || uses(
                                terms@.take(i + 1),
                                b as u32,
                            ))) by {
                                lemma_uses_push(prefix, term, b as u32);
                            }
                            assert forall|w: spec_fn(u32) -> u32|
                                #![trigger extends(before, w)]
                                #![trigger extends(binding@, w)]
                                extends(binding@, w) <==> (extends(before, w) && forall|j: int|
                                    0 <= j < i + 1 ==> term_value(#[trigger] terms@[j], w)
                                        == tuple@[j]) by {
                                if extends(binding@, w) {
                                    assert(binding@[slot as int] is Some);
                                    assert(term_value(terms@[i as int], w) == value);
                                }
                            }
                        }
                    },
                    None => {
                        binding[slot] = Some(value);
                        proof {
                            assert(binding@ == current.update(slot as int, Some(value)));
                            assert forall|b: int| 0 <= b < before.len() implies ((
                            #[trigger] binding@[b]) is Some <==> (before[b] is Some || uses(
                                terms@.take(i + 1),
                                b as u32,
                            ))) by {
                                lemma_uses_push(prefix, term, b as u32);
                                if b != slot {
                                    assert(binding@[b] == current[b]);
                                }
                            }
                            assert forall|w: spec_fn(u32) -> u32|
                                #![trigger extends(before, w)]
                                #![trigger extends(binding@, w)]
                                extends(binding@, w) <==> (extends(before, w) && forall|j: int|
                                    0 <= j < i + 1 ==> term_value(#[trigger] terms@[j], w)
                                        == tuple@[j]) by {
                                assert(term_value(terms@[i as int], w) == w(id.0));
                                if extends(binding@, w) {
                                    assert(binding@[slot as int] is Some);
                                    assert forall|b: int|
                                        0 <= b < current.len() && (
                                        #[trigger] current[b]) is Some implies current[b] == Some(
                                        w(b as u32),
                                    ) by {
                                        assert(binding@[b] == current[b]);
                                    }
                                    assert(extends(current, w));
                                }
                                if extends(before, w) && forall|j: int|
                                    0 <= j < i + 1 ==> term_value(#[trigger] terms@[j], w)
                                        == tuple@[j] {
                                    assert(extends(current, w));
                                    assert forall|b: int|
                                        0 <= b < binding@.len() && (
                                        #[trigger] binding@[b]) is Some implies binding@[b]
                                        == Some(w(b as u32)) by {
                                        if b != slot {
                                            assert(binding@[b] == current[b]);
                                        }
                                    }
                                }
                            }
                        }
                    },
                }
            },
        }
        i += 1;
    }
    proof {
        let w = |b: u32|
            if b < binding@.len() && binding@[b as int] is Some {
                binding@[b as int]->0
            } else {
                0u32
            };
        assert(extends(binding@, w));
        assert(extends(before, w));
        assert(terms@.take(terms@.len() as int) =~= terms@);
        assert(instance(terms@, w) =~= tuple@);
        assert(binding@ =~= widened(before, terms@, w));
    }
    true
}

proof fn lemma_uses_push(terms: Seq<PlanTerm>, term: PlanTerm, b: u32)
    ensures
        uses(terms.push(term), b) <==> (uses(terms, b) || term == PlanTerm::Binding(BindingId(b))),
{
    let t = PlanTerm::Binding(BindingId(b));
    let longer = terms.push(term);
    if longer.contains(t) && term != t {
        let k = choose|k: int| 0 <= k < longer.len() && longer[k] == t;
        assert(terms[k] == t);
    }
    if terms.contains(t) {
        let k = choose|k: int| 0 <= k < terms.len() && terms[k] == t;
        assert(longer[k] == t);
    }
    assert(longer[terms.len() as int] == term);
}

/// A row cut down to the listed bindings.
spec fn kept(row: Row, live: Seq<BindingId>) -> Row {
    Seq::new(
        row.len(),
        |b: int|
            if live.contains(BindingId(b as u32)) {
                row[b]
            } else {
                None
            },
    )
}

/// Whether the value of a binding is kept through the first `count` positive atoms.
spec fn is_retained(clause: ClauseView, count: int, binding: u32) -> bool
    decreases count,
{
    count > 0 && clause.live_after[count - 1].contains(BindingId(binding)) && (uses(
        clause.positive[count - 1].terms,
        binding,
    ) || is_retained(clause, count - 1, binding))
}

proof fn lemma_retained(clause: ClauseView, count: int, b: u32)
    requires
        0 <= count <= clause.positive.len(),
        liveness_known(clause),
    ensures
        is_live(clause, count, b) ==> is_retained(clause, count, b),
        is_retained(clause, count, b) ==> bound_by(clause.positive.take(count), b) && bound_by(
            clause.positive,
            b,
        ),
    decreases count,
{
    if count > 0 {
        lemma_retained(clause, count - 1, b);
        lemma_bound_take(clause.positive, count - 1, b);
        assert(clause.live_after[count - 1].contains(BindingId(b)) || !is_live(clause, count, b));
    }
}

/// The row that an assignment leaves after the first `count` positive atoms.
spec fn live_row(clause: ClauseView, count: int, width: int, v: spec_fn(u32) -> u32) -> Row {
    Seq::new(
        width as nat,
        |b: int|
            if is_retained(clause, count, b as u32) {
                Some(v(b as u32))
            } else {
                None
            },
    )
}

/// Whether rows stand for the assignments that join the first `count` positive atoms.
spec fn represents(
    rows: Seq<Row>,
    clause: ClauseView,
    store: StoreView,
    count: int,
    width: int,
) -> bool {
    forall|r: Row| #[trigger]
        rows.contains(r) <==> exists|v: spec_fn(u32) -> u32| #[trigger]
            joins(clause.positive.take(count), store, v) && r == live_row(clause, count, width, v)
}

/// Whether every binding of a clause is below a width.
spec fn fits_width(clause: ClauseView, width: int) -> bool {
    forall|b: u32|
        #![trigger uses(clause.head, b)]
        #![trigger bound_by(clause.positive, b)]
        #![trigger bound_by(clause.negative, b)]
        uses(clause.head, b) || bound_by(clause.positive, b) || bound_by(clause.negative, b) ==> b
            < width
}

proof fn lemma_bound_take(atoms: Seq<PlannedAtomView>, count: int, b: u32)
    requires
        0 <= count < atoms.len(),
    ensures
        bound_by(atoms.take(count + 1), b) <==> (bound_by(atoms.take(count), b) || uses(
            atoms[count].terms,
            b,
        )),
        bound_by(atoms.skip(count), b) <==> (uses(atoms[count].terms, b) || bound_by(
            atoms.skip(count + 1),
            b,
        )),
        bound_by(atoms.take(count), b) ==> bound_by(atoms, b),
        uses(atoms[count].terms, b) ==> bound_by(atoms, b),
{
    let longer = atoms.take(count + 1);
    let shorter = atoms.take(count);
    if bound_by(longer, b) {
        let i = choose|i: int| 0 <= i < longer.len() && uses((#[trigger] longer[i]).terms, b);
        if i < count {
            assert(shorter[i] == longer[i]);
        }
    }
    if bound_by(shorter, b) {
        let i = choose|i: int| 0 <= i < shorter.len() && uses((#[trigger] shorter[i]).terms, b);
        assert(longer[i] == shorter[i]);
        assert(uses(atoms[i].terms, b));
    }
    assert(longer[count] == atoms[count]);
    let from = atoms.skip(count);
    let after = atoms.skip(count + 1);
    if bound_by(from, b) {
        let i = choose|i: int| 0 <= i < from.len() && uses((#[trigger] from[i]).terms, b);
        if i > 0 {
            assert(after[i - 1] == from[i]);
        }
    }
    if bound_by(after, b) {
        let i = choose|i: int| 0 <= i < after.len() && uses((#[trigger] after[i]).terms, b);
        assert(from[i + 1] == after[i]);
    }
    assert(from[0] == atoms[count]);
}

proof fn lemma_joins_take(
    atoms: Seq<PlannedAtomView>,
    store: StoreView,
    count: int,
    v: spec_fn(u32) -> u32,
)
    requires
        0 <= count < atoms.len(),
    ensures
        joins(atoms.take(count + 1), store, v) <==> (joins(atoms.take(count), store, v) && rows_of(
            store,
            atoms[count],
        ).contains(instance(atoms[count].terms, v))),
{
    let longer = atoms.take(count + 1);
    let shorter = atoms.take(count);
    if joins(longer, store, v) {
        assert forall|i: int| 0 <= i < shorter.len() implies rows_of(
            store,
            #[trigger] shorter[i],
        ).contains(instance(shorter[i].terms, v)) by {
            assert(longer[i] == shorter[i]);
        }
        assert(longer[count] == atoms[count]);
    }
    if joins(shorter, store, v) && rows_of(store, atoms[count]).contains(
        instance(atoms[count].terms, v),
    ) {
        assert forall|i: int| 0 <= i < longer.len() implies rows_of(
            store,
            #[trigger] longer[i],
        ).contains(instance(longer[i].terms, v)) by {
            if i < count {
                assert(longer[i] == shorter[i]);
            }
        }
    }
}

proof fn lemma_joins_depends(
    atoms: Seq<PlannedAtomView>,
    store: StoreView,
    v: spec_fn(u32) -> u32,
    w: spec_fn(u32) -> u32,
)
    requires
        joins(atoms, store, v),
        agree_on(atoms, v, w),
    ensures
        joins(atoms, store, w),
{
    assert forall|i: int| 0 <= i < atoms.len() implies rows_of(store, #[trigger] atoms[i]).contains(
        instance(atoms[i].terms, w),
    ) by {
        assert forall|b: u32| #[trigger] uses(atoms[i].terms, b) implies v(b) == w(b) by {
            assert(bound_by(atoms, b));
        }
        lemma_instance_depends(atoms[i].terms, v, w);
    }
}

/// Whether `result` comes from matching a row with a tuple of an atom and keeping what is live.
spec fn steps_to(
    rows: Seq<Row>,
    terms: Seq<PlanTerm>,
    tuples: Set<Seq<u32>>,
    live: Seq<BindingId>,
    result: Row,
) -> bool {
    exists|row: Row, tuple: Seq<u32>, wide: Row|
        rows.contains(row) && tuples.contains(tuple) && #[trigger] matched(row, terms, tuple, wide)
            && result == kept(wide, live)
}

proof fn lemma_step_represents(
    before: Seq<Row>,
    after: Seq<Row>,
    clause: ClauseView,
    store: StoreView,
    count: int,
    width: int,
)
    requires
        0 <= count < clause.positive.len(),
        0 <= width <= u32::MAX + 1,
        fits_width(clause, width),
        liveness_known(clause),
        represents(before, clause, store, count, width),
        forall|r: Row| #[trigger]
            after.contains(r) <==> steps_to(
                before,
                clause.positive[count].terms,
                rows_of(store, clause.positive[count]),
                clause.live_after[count],
                r,
            ),
    ensures
        represents(after, clause, store, count + 1, width),
{
    let atom = clause.positive[count];
    let terms = atom.terms;
    let tuples = rows_of(store, atom);
    let live = clause.live_after[count];
    assert forall|r: Row| #[trigger] after.contains(r) <==> exists|v: spec_fn(u32) -> u32| #[trigger]
        joins(clause.positive.take(count + 1), store, v) && r == live_row(
            clause,
            count + 1,
            width,
            v,
        ) by {
        if after.contains(r) {
            let (row, tuple, wide) = choose|row: Row, tuple: Seq<u32>, wide: Row|
                before.contains(row) && tuples.contains(tuple) && #[trigger] matched(
                    row,
                    terms,
                    tuple,
                    wide,
                ) && r == kept(wide, live);
            let v = choose|v: spec_fn(u32) -> u32| #[trigger]
                joins(clause.positive.take(count), store, v) && row == live_row(
                    clause,
                    count,
                    width,
                    v,
                );
            let w = choose|w: spec_fn(u32) -> u32| #[trigger]
                extends(row, w) && instance(terms, w) == tuple && wide == widened(row, terms, w);
            let u = |b: u32|
                if uses(terms, b) {
                    w(b)
                } else {
                    v(b)
                };
            assert(agree_on(clause.positive.take(count), v, u)) by {
                assert forall|b: u32| #[trigger] bound_by(
                    clause.positive.take(count),
                    b,
                ) implies v(b) == u(b) by {
                    lemma_bound_take(clause.positive, count, b);
                    if uses(terms, b) {
                        assert(is_live(clause, count, b));
                        lemma_retained(clause, count, b);
                        assert(bound_by(clause.positive, b));
                        assert(row[b as int] == Some(v(b)));
                    }
                }
            }
            lemma_joins_depends(clause.positive.take(count), store, v, u);
            lemma_instance_depends(terms, w, u);
            lemma_joins_take(clause.positive, store, count, u);
            let target = live_row(clause, count + 1, width, u);
            assert forall|b: int| 0 <= b < width implies r[b] == target[b] by {
                if is_retained(clause, count + 1, b as u32) && !uses(terms, b as u32) {
                    assert(row[b] == Some(v(b as u32)));
                }
            }
            assert(r =~= target);
            assert(joins(clause.positive.take(count + 1), store, u));
        }
        if exists|v: spec_fn(u32) -> u32| #[trigger]
            joins(clause.positive.take(count + 1), store, v) && r == live_row(
                clause,
                count + 1,
                width,
                v,
            ) {
            let v = choose|v: spec_fn(u32) -> u32| #[trigger]
                joins(clause.positive.take(count + 1), store, v) && r == live_row(
                    clause,
                    count + 1,
                    width,
                    v,
                );
            lemma_joins_take(clause.positive, store, count, v);
            let row = live_row(clause, count, width, v);
            assert(before.contains(row));
            let tuple = instance(terms, v);
            let wide = widened(row, terms, v);
            assert(extends(row, v));
            assert(matched(row, terms, tuple, wide));
            assert forall|b: int| 0 <= b < width implies r[b] == kept(wide, live)[b] by {}
            assert(r =~= kept(wide, live));
            assert(steps_to(before, terms, tuples, live, r));
        }
    }
}

fn copy_row(row: &Vec<Option<u32>>) -> (copy: Vec<Option<u32>>)
    ensures
        copy@ == row@,
{
    vstd::slice::slice_to_vec(row.as_slice())
}

fn contains_binding(items: &Vec<BindingId>, item: BindingId) -> (found: bool)
    ensures
        found == items@.contains(item),
{
    let mut i: usize = 0;
    while i < items.len()
        invariant
            i <= items@.len(),
            forall|j: int| 0 <= j < i ==> items@[j] != item,
        decreases items@.len() - i,
    {
        if items[i] == item {
            assert(items@[i as int] == item);
            return true;
        }
        i += 1;
    }
    false
}

/// Drops the values of bindings that are not listed.
fn keep_live(row: &mut Vec<Option<u32>>, live: &Vec<BindingId>)
    requires
        old(row)@.len() <= u32::MAX + 1,
    ensures
        final(row)@ == kept(old(row)@, live@),
{
    let ghost before = row@;
    let mut b: usize = 0;
    while b < row.len()
        invariant
            b <= row@.len(),
            row@.len() == before.len(),
            before.len() <= u32::MAX + 1,
            forall|j: int| 0 <= j < b ==> #[trigger] row@[j] == kept(before, live@)[j],
            forall|j: int| b <= j < before.len() ==> #[trigger] row@[j] == before[j],
        decreases before.len() - b,
    {
        if !contains_binding(live, BindingId(b as u32)) {
            row[b] = None;
        }
        b += 1;
    }
    assert(row@ =~= kept(before, live@));
}

/// Joins rows with the tuples of one positive atom.
fn join_step(
    rows: &Vec<Vec<Option<u32>>>,
    terms: &Vec<PlanTerm>,
    tuples: &TupleSet,
    live: &Vec<BindingId>,
    width: usize,
) -> (joined: Vec<Vec<Option<u32>>>)
    requires
        tuples.wf(),
        width <= u32::MAX + 1,
        forall|i: int| 0 <= i < rows@.len() ==> (#[trigger] rows@[i])@.len() == width,
        forall|b: u32| #[trigger] uses(terms@, b) ==> b < width,
    ensures
        forall|i: int| 0 <= i < joined@.len() ==> (#[trigger] joined@[i])@.len() == width,
        forall|r: Row| #[trigger]
            ast::views(joined@).contains(r) <==> steps_to(
                ast::views(rows@),
                terms@,
                tuples@,
                live@,
                r,
            ),
{
    let mut joined: Vec<Vec<Option<u32>>> = Vec::new();
    let ghost sources = ast::views(rows@);
    let ghost listed = tuples.listed();
    let all = tuples.as_slice();
    proof {
        tuples.lemma_listed();
    }
    let mut i: usize = 0;
    while i < rows.len()
        invariant
            i <= rows@.len(),
            tuples.wf(),
            width <= u32::MAX + 1,
            sources == ast::views(rows@),
            listed == ast::views(all@),
            forall|i: int| 0 <= i < rows@.len() ==> (#[trigger] rows@[i])@.len() == width,
            forall|b: u32| #[trigger] uses(terms@, b) ==> b < width,
            forall|i: int| 0 <= i < joined@.len() ==> (#[trigger] joined@[i])@.len() == width,
            forall|r: Row| #[trigger]
                ast::views(joined@).contains(r) <==> stepped(
                    sources,
                    terms@,
                    listed,
                    live@,
                    i as int,
                    0,
                    r,
                ),
        decreases rows@.len() - i,
    {
        let mut t: usize = 0;
        while t < all.len()
            invariant
                i < rows@.len(),
                t <= all@.len(),
                tuples.wf(),
                width <= u32::MAX + 1,
                sources == ast::views(rows@),
                listed == ast::views(all@),
                forall|i: int| 0 <= i < rows@.len() ==> (#[trigger] rows@[i])@.len() == width,
                forall|b: u32| #[trigger] uses(terms@, b) ==> b < width,
                forall|i: int| 0 <= i < joined@.len() ==> (#[trigger] joined@[i])@.len() == width,
                forall|r: Row| #[trigger]
                    ast::views(joined@).contains(r) <==> stepped(
                        sources,
                        terms@,
                        listed,
                        live@,
                        i as int,
                        t as int,
                        r,
                    ),
            decreases all@.len() - t,
        {
            let tuple = &all[t];
            let ghost before = ast::views(joined@);
            assert(sources[i as int] == rows@[i as int]@);
            assert(listed[t as int] == tuple@);
            if tuple.len() == terms.len() {
                let mut candidate = copy_row(&rows[i]);
                if match_atom(&mut candidate, terms, tuple) {
                    let ghost wide = candidate@;
                    keep_live(&mut candidate, live);
                    let ghost added = candidate@;
                    joined.push(candidate);
                    proof {
                        assert(ast::views(joined@) =~= before.push(added));
                        assert forall|r: Row| #[trigger] ast::views(joined@).contains(r) <==> stepped(
                            sources,
                            terms@,
                            listed,
                            live@,
                            i as int,
                            t + 1,
                            r,
                        ) by {
                            lemma_contains_push(before, added, r);
                            lemma_stepped_next(
                                sources,
                                terms@,
                                listed,
                                live@,
                                i as int,
                                t as int,
                                r,
                            );
                            if yields(sources[i as int], terms@, listed[t as int], live@, r) {
                                let other = choose|other: Row| #[trigger]
                                    matched(sources[i as int], terms@, listed[t as int], other)
                                        && r == kept(other, live@);
                                lemma_matched_unique(
                                    sources[i as int],
                                    terms@,
                                    listed[t as int],
                                    other,
                                    wide,
                                );
                            }
                            assert(matched(sources[i as int], terms@, listed[t as int], wide));
                        }
                    }
                } else {
                    proof {
                        assert forall|r: Row| #[trigger] ast::views(joined@).contains(r) <==> stepped(
                            sources,
                            terms@,
                            listed,
                            live@,
                            i as int,
                            t + 1,
                            r,
                        ) by {
                            lemma_stepped_next(
                                sources,
                                terms@,
                                listed,
                                live@,
                                i as int,
                                t as int,
                                r,
                            );
                        }
                    }
                }
            } else {
                proof {
                    assert forall|r: Row| #[trigger] ast::views(joined@).contains(r) <==> stepped(
                        sources,
                        terms@,
                        listed,
                        live@,
                        i as int,
                        t + 1,
                        r,
                    ) by {
                        lemma_stepped_next(
                            sources,
                            terms@,
                            listed,
                            live@,
                            i as int,
                            t as int,
                            r,
                        );
                    }
                }
            }
            t += 1;
        }
        proof {
            assert forall|r: Row| #[trigger] ast::views(joined@).contains(r) <==> stepped(
                sources,
                terms@,
                listed,
                live@,
                i + 1,
                0,
                r,
            ) by {
                lemma_stepped_row(sources, terms@, listed, live@, i as int, r);
            }
        }
        i += 1;
    }
    proof {
        assert forall|r: Row| #[trigger] ast::views(joined@).contains(r) <==> steps_to(
            sources,
            terms@,
            tuples@,
            live@,
            r,
        ) by {
            lemma_stepped_all(sources, terms@, listed, tuples@, live@, r);
        }
    }
    joined
}

/// Whether one row and one tuple give a result.
spec fn yields(
    row: Row,
    terms: Seq<PlanTerm>,
    tuple: Seq<u32>,
    live: Seq<BindingId>,
    result: Row,
) -> bool {
    exists|wide: Row| #[trigger] matched(row, terms, tuple, wide) && result == kept(wide, live)
}

/// Whether a row before `i`, or row `i` with a tuple before `t`, gives a result.
spec fn stepped(
    rows: Seq<Row>,
    terms: Seq<PlanTerm>,
    tuples: Seq<Seq<u32>>,
    live: Seq<BindingId>,
    i: int,
    t: int,
    result: Row,
) -> bool {
    exists|a: int, c: int|
        #![trigger rows[a], tuples[c]]
        0 <= a < rows.len() && 0 <= c < tuples.len() && (a < i || (a == i && c < t)) && yields(
            rows[a],
            terms,
            tuples[c],
            live,
            result,
        )
}

proof fn lemma_contains_push(rows: Seq<Row>, added: Row, r: Row)
    ensures
        rows.push(added).contains(r) <==> (rows.contains(r) || r == added),
{
    let longer = rows.push(added);
    if longer.contains(r) && r != added {
        let k = choose|k: int| 0 <= k < longer.len() && longer[k] == r;
        assert(rows[k] == r);
    }
    if rows.contains(r) {
        let k = choose|k: int| 0 <= k < rows.len() && rows[k] == r;
        assert(longer[k] == r);
    }
    assert(longer[rows.len() as int] == added);
}

proof fn lemma_stepped_next(
    rows: Seq<Row>,
    terms: Seq<PlanTerm>,
    tuples: Seq<Seq<u32>>,
    live: Seq<BindingId>,
    i: int,
    t: int,
    r: Row,
)
    requires
        0 <= i < rows.len(),
        0 <= t < tuples.len(),
    ensures
        stepped(rows, terms, tuples, live, i, t + 1, r) <==> (stepped(
            rows,
            terms,
            tuples,
            live,
            i,
            t,
            r,
        ) || yields(rows[i], terms, tuples[t], live, r)),
        yields(rows[i], terms, tuples[t], live, r) ==> terms.len() == tuples[t].len(),
{
    if stepped(rows, terms, tuples, live, i, t + 1, r) {
        let (a, c) = choose|a: int, c: int|
            #![trigger rows[a], tuples[c]]
            0 <= a < rows.len() && 0 <= c < tuples.len() && (a < i || (a == i && c < t + 1))
                && yields(rows[a], terms, tuples[c], live, r);
        if a == i && c == t {
        } else {
            assert(stepped(rows, terms, tuples, live, i, t, r));
        }
    }
    if stepped(rows, terms, tuples, live, i, t, r) {
        let (a, c) = choose|a: int, c: int|
            #![trigger rows[a], tuples[c]]
            0 <= a < rows.len() && 0 <= c < tuples.len() && (a < i || (a == i && c < t)) && yields(
                rows[a],
                terms,
                tuples[c],
                live,
                r,
            );
        assert(rows[a] == rows[a] && tuples[c] == tuples[c]);
    }
}

proof fn lemma_stepped_row(
    rows: Seq<Row>,
    terms: Seq<PlanTerm>,
    tuples: Seq<Seq<u32>>,
    live: Seq<BindingId>,
    i: int,
    r: Row,
)
    requires
        0 <= i < rows.len(),
    ensures
        stepped(rows, terms, tuples, live, i, tuples.len() as int, r) <==> stepped(
            rows,
            terms,
            tuples,
            live,
            i + 1,
            0,
            r,
        ),
{
}

proof fn lemma_stepped_all(
    rows: Seq<Row>,
    terms: Seq<PlanTerm>,
    listed: Seq<Seq<u32>>,
    tuples: Set<Seq<u32>>,
    live: Seq<BindingId>,
    r: Row,
)
    requires
        listed.to_set() == tuples,
    ensures
        stepped(rows, terms, listed, live, rows.len() as int, 0, r) <==> steps_to(
            rows,
            terms,
            tuples,
            live,
            r,
        ),
{
    if stepped(rows, terms, listed, live, rows.len() as int, 0, r) {
        let (a, c) = choose|a: int, c: int|
            #![trigger rows[a], listed[c]]
            0 <= a < rows.len() && 0 <= c < listed.len() && (a < rows.len() || (a == rows.len()
                && c < 0)) && yields(rows[a], terms, listed[c], live, r);
        let wide = choose|wide: Row| #[trigger]
            matched(rows[a], terms, listed[c], wide) && r == kept(wide, live);
        assert(rows.contains(rows[a]));
        assert(listed.to_set().contains(listed[c]));
    }
    if steps_to(rows, terms, tuples, live, r) {
        let (row, tuple, wide) = choose|row: Row, tuple: Seq<u32>, wide: Row|
            rows.contains(row) && tuples.contains(tuple) && #[trigger] matched(
                row,
                terms,
                tuple,
                wide,
            ) && r == kept(wide, live);
        let a = choose|a: int| 0 <= a < rows.len() && rows[a] == row;
        assert(listed.to_set().contains(tuple));
        let c = choose|c: int| 0 <= c < listed.len() && listed[c] == tuple;
        assert(yields(rows[a], terms, listed[c], live, r));
    }
}

/// Whether an assignment joins the positive atoms and passes the first `count` negated ones.
spec fn holds_upto(
    clause: ClauseView,
    store: StoreView,
    count: int,
    v: spec_fn(u32) -> u32,
) -> bool {
    &&& joins(clause.positive, store, v)
    &&& forall|j: int|
        0 <= j < count ==> !blocked(#[trigger] clause.negative[j], clause.positive, store, v)
}

/// Whether rows stand for the assignments that pass the first `count` negated atoms.
spec fn survives(
    rows: Seq<Row>,
    clause: ClauseView,
    store: StoreView,
    count: int,
    width: int,
) -> bool {
    forall|r: Row| #[trigger]
        rows.contains(r) <==> exists|v: spec_fn(u32) -> u32| #[trigger]
            holds_upto(clause, store, count, v) && r == live_row(
                clause,
                clause.positive.len() as int,
                width,
                v,
            )
}

/// Whether some tuple matches a row.
spec fn row_matches(row: Row, terms: Seq<PlanTerm>, tuples: Set<Seq<u32>>) -> bool {
    exists|tuple: Seq<u32>, wide: Row|
        tuples.contains(tuple) && #[trigger] matched(row, terms, tuple, wide)
}

proof fn lemma_row_matches(
    clause: ClauseView,
    store: StoreView,
    j: int,
    width: int,
    v: spec_fn(u32) -> u32,
)
    requires
        0 <= j < clause.negative.len(),
        0 <= width <= u32::MAX + 1,
        fits_width(clause, width),
        liveness_known(clause),
    ensures
        row_matches(
            live_row(clause, clause.positive.len() as int, width, v),
            clause.negative[j].terms,
            store.full[clause.negative[j].relation.0 as int],
        ) <==> blocked(clause.negative[j], clause.positive, store, v),
{
    let n = clause.positive.len() as int;
    let row = live_row(clause, n, width, v);
    let atom = clause.negative[j];
    let tuples = store.full[atom.relation.0 as int];
    assert(clause.positive.take(n) =~= clause.positive);
    if row_matches(row, atom.terms, tuples) {
        let (tuple, wide) = choose|tuple: Seq<u32>, wide: Row|
            tuples.contains(tuple) && #[trigger] matched(row, atom.terms, tuple, wide);
        let w = choose|w: spec_fn(u32) -> u32| #[trigger]
            extends(row, w) && instance(atom.terms, w) == tuple && wide == widened(
                row,
                atom.terms,
                w,
            );
        let u = |b: u32|
            if uses(atom.terms, b) {
                w(b)
            } else {
                v(b)
            };
        lemma_instance_depends(atom.terms, w, u);
        assert forall|b: u32| #[trigger] bound_by(clause.positive, b) implies v(b) == u(b) by {
            if uses(atom.terms, b) {
                assert(bound_by(clause.negative, b));
                assert(is_live(clause, n, b));
                lemma_retained(clause, n, b);
                assert(row[b as int] == Some(v(b)));
            }
        }
        assert(agree_on(clause.positive, v, u));
    }
    if blocked(atom, clause.positive, store, v) {
        let w = choose|w: spec_fn(u32) -> u32| #[trigger]
            agree_on(clause.positive, v, w) && tuples.contains(instance(atom.terms, w));
        assert(extends(row, w)) by {
            assert forall|b: int| 0 <= b < row.len() && (#[trigger] row[b]) is Some implies row[b]
                == Some(w(b as u32)) by {
                lemma_retained(clause, n, b as u32);
                assert(bound_by(clause.positive, b as u32));
            }
        }
        assert(matched(row, atom.terms, instance(atom.terms, w), widened(row, atom.terms, w)));
    }
}

/// Whether some tuple matches a row.
fn any_match(row: &Vec<Option<u32>>, terms: &Vec<PlanTerm>, tuples: &TupleSet) -> (found: bool)
    requires
        tuples.wf(),
        row@.len() <= u32::MAX + 1,
        forall|b: u32| #[trigger] uses(terms@, b) ==> b < row@.len(),
    ensures
        found == row_matches(row@, terms@, tuples@),
{
    let all = tuples.as_slice();
    proof {
        tuples.lemma_listed();
    }
    let mut t: usize = 0;
    while t < all.len()
        invariant
            t <= all@.len(),
            tuples.listed() == ast::views(all@),
            tuples.listed().to_set() == tuples@,
            row@.len() <= u32::MAX + 1,
            forall|b: u32| #[trigger] uses(terms@, b) ==> b < row@.len(),
            forall|c: int, wide: Row|
                0 <= c < t ==> !#[trigger] matched(row@, terms@, tuples.listed()[c], wide),
        decreases all@.len() - t,
    {
        let tuple = &all[t];
        assert(tuples.listed()[t as int] == tuple@);
        if tuple.len() == terms.len() {
            let mut candidate = copy_row(row);
            if match_atom(&mut candidate, terms, tuple) {
                assert(tuples.listed().to_set().contains(tuple@));
                assert(matched(row@, terms@, tuple@, candidate@));
                return true;
            }
        } else {
            assert forall|wide: Row| !#[trigger] matched(row@, terms@, tuple@, wide) by {}
        }
        t += 1;
    }
    proof {
        if row_matches(row@, terms@, tuples@) {
            let (tuple, wide) = choose|tuple: Seq<u32>, wide: Row|
                tuples@.contains(tuple) && #[trigger] matched(row@, terms@, tuple, wide);
            assert(tuples.listed().to_set().contains(tuple));
            let c = choose|c: int|
                0 <= c < tuples.listed().len() && tuples.listed()[c] == tuple;
            assert(matched(row@, terms@, tuples.listed()[c], wide));
        }
    }
    false
}

/// Keeps the rows that no tuple of a negated atom matches.
fn filter_step(
    rows: Vec<Vec<Option<u32>>>,
    terms: &Vec<PlanTerm>,
    tuples: &TupleSet,
    width: usize,
) -> (open: Vec<Vec<Option<u32>>>)
    requires
        tuples.wf(),
        width <= u32::MAX + 1,
        forall|i: int| 0 <= i < rows@.len() ==> (#[trigger] rows@[i])@.len() == width,
        forall|b: u32| #[trigger] uses(terms@, b) ==> b < width,
    ensures
        forall|i: int| 0 <= i < open@.len() ==> (#[trigger] open@[i])@.len() == width,
        forall|r: Row| #[trigger]
            ast::views(open@).contains(r) <==> ast::views(rows@).contains(r) && !row_matches(
                r,
                terms@,
                tuples@,
            ),
{
    let mut open: Vec<Vec<Option<u32>>> = Vec::new();
    let ghost all = ast::views(rows@);
    let mut i: usize = 0;
    while i < rows.len()
        invariant
            i <= rows@.len(),
            all == ast::views(rows@),
            tuples.wf(),
            width <= u32::MAX + 1,
            forall|i: int| 0 <= i < rows@.len() ==> (#[trigger] rows@[i])@.len() == width,
            forall|b: u32| #[trigger] uses(terms@, b) ==> b < width,
            forall|i: int| 0 <= i < open@.len() ==> (#[trigger] open@[i])@.len() == width,
            forall|r: Row| #[trigger]
                ast::views(open@).contains(r) <==> all.take(i as int).contains(r) && !row_matches(
                    r,
                    terms@,
                    tuples@,
                ),
        decreases rows@.len() - i,
    {
        let ghost before = ast::views(open@);
        assert(all[i as int] == rows@[i as int]@);
        assert(all.take(i + 1) =~= all.take(i as int).push(all[i as int]));
        if !any_match(&rows[i], terms, tuples) {
            let row = copy_row(&rows[i]);
            open.push(row);
            assert(ast::views(open@) =~= before.push(all[i as int]));
        }
        proof {
            assert forall|r: Row| #[trigger] ast::views(open@).contains(r) <==> all.take(
                i + 1,
            ).contains(r) && !row_matches(r, terms@, tuples@) by {
                lemma_contains_push(all.take(i as int), all[i as int], r);
                lemma_contains_push(before, all[i as int], r);
            }
        }
        i += 1;
    }
    assert(all.take(all.len() as int) =~= all);
    open
}

/// One more than the largest binding of some terms, or `start` if that is larger.
fn widest(terms: &Vec<PlanTerm>, start: usize) -> (width: usize)
    requires
        bindings_fit(terms@),
        start <= u32::MAX + 1,
    ensures
        start <= width <= u32::MAX + 1,
        forall|b: u32| #[trigger] uses(terms@, b) ==> b < width,
{
    let mut width: usize = start;
    let mut i: usize = 0;
    while i < terms.len()
        invariant
            i <= terms@.len(),
            bindings_fit(terms@),
            start <= width <= u32::MAX + 1,
            forall|j: int|
                0 <= j < i ==> ((#[trigger] terms@[j]) matches PlanTerm::Binding(x) ==> x.0 < width),
        decreases terms@.len() - i,
    {
        match terms[i] {
            PlanTerm::Binding(binding) => {
                assert(terms@[i as int] == PlanTerm::Binding(BindingId(binding.0)));
                assert(uses(terms@, binding.0));
                let needed: usize = binding.0 as usize + 1;
                if width < needed {
                    width = needed;
                }
            },
            PlanTerm::Value(_) => {},
        }
        i += 1;
    }
    assert forall|b: u32| #[trigger] uses(terms@, b) implies b < width by {
        let j = choose|j: int|
            0 <= j < terms@.len() && terms@[j] == PlanTerm::Binding(BindingId(b));
        assert(terms@[j] == PlanTerm::Binding(BindingId(b)));
    }
    width
}

fn widest_atom(atoms: &Vec<PlannedAtom>, start: usize) -> (width: usize)
    requires
        forall|i: int| 0 <= i < atoms@.len() ==> bindings_fit((#[trigger] atoms@[i]).terms@),
        start <= u32::MAX + 1,
    ensures
        start <= width <= u32::MAX + 1,
        forall|b: u32| #[trigger] bound_by(ast::views(atoms@), b) ==> b < width,
{
    let mut width: usize = start;
    let mut i: usize = 0;
    while i < atoms.len()
        invariant
            i <= atoms@.len(),
            forall|i: int| 0 <= i < atoms@.len() ==> bindings_fit((#[trigger] atoms@[i]).terms@),
            start <= width <= u32::MAX + 1,
            forall|j: int, b: u32|
                0 <= j < i && #[trigger] uses(atoms@[j].terms@, b) ==> b < width,
        decreases atoms@.len() - i,
    {
        width = widest(&atoms[i].terms, width);
        i += 1;
    }
    assert forall|b: u32| #[trigger] bound_by(ast::views(atoms@), b) implies b < width by {
        let j = choose|j: int|
            0 <= j < atoms@.len() && uses((#[trigger] ast::views(atoms@)[j]).terms, b);
        assert(uses(atoms@[j].terms@, b));
    }
    width
}

/// The head tuple of a row.
fn project_head(head: &Vec<PlanTerm>, row: &Vec<Option<u32>>) -> (tuple: Vec<u32>)
    requires
        forall|b: u32| #[trigger] uses(head@, b) ==> b < row@.len() && row@[b as int] is Some,
    ensures
        forall|w: spec_fn(u32) -> u32| #[trigger] extends(row@, w) ==> tuple@ == instance(head@, w),
{
    let mut tuple: Vec<u32> = Vec::new();
    let mut i: usize = 0;
    while i < head.len()
        invariant
            i <= head@.len(),
            tuple@.len() == i,
            forall|b: u32| #[trigger] uses(head@, b) ==> b < row@.len() && row@[b as int] is Some,
            forall|w: spec_fn(u32) -> u32, j: int|
                #![trigger extends(row@, w), tuple@[j]]
                extends(row@, w) && 0 <= j < i ==> tuple@[j] == term_value(head@[j], w),
        decreases head@.len() - i,
    {
        let ghost before = tuple@;
        match head[i] {
            PlanTerm::Binding(binding) => {
                assert(head@[i as int] == PlanTerm::Binding(BindingId(binding.0)));
                assert(uses(head@, binding.0));
                let slot: usize = binding.0 as usize;
                let value: u32 = match row[slot] {
                    Some(value) => value,
                    None => 0,
                };
                assert forall|w: spec_fn(u32) -> u32| #[trigger] extends(row@, w) implies value
                    == term_value(head@[i as int], w) by {
                    assert(row@[slot as int] is Some);
                }
                tuple.push(value);
            },
            PlanTerm::Value(value) => {
                tuple.push(value);
            },
        }
        assert(forall|j: int| 0 <= j < i ==> tuple@[j] == before[j]);
        i += 1;
    }
    assert forall|w: spec_fn(u32) -> u32| #[trigger] extends(row@, w) implies tuple@ == instance(
        head@,
        w,
    ) by {
        assert(tuple@ =~= instance(head@, w));
    }
    tuple
}

/// The head tuples of all assignments that satisfy the body of a clause.
pub fn evaluate_clause(clause: &RelationalClausePlan, store: &TupleStore) -> (result: TupleSet)
    requires
        store.wf(),
        clause_valid(clause@, store@.full.len() as int),
    ensures
        result.wf(),
        result@ == clause_result(clause@, store@),
{
    let ghost view = clause@;
    proof {
        assert forall|i: int| 0 <= i < clause.positive@.len() implies bindings_fit(
            (#[trigger] clause.positive@[i]).terms@,
        ) by {
            assert(atom_valid(view.positive[i], store@.full.len() as int));
        }
        assert forall|i: int| 0 <= i < clause.negative@.len() implies bindings_fit(
            (#[trigger] clause.negative@[i]).terms@,
        ) by {
            assert(atom_valid(view.negative[i], store@.full.len() as int));
        }
    }
    let width: usize = widest_atom(
        &clause.negative,
        widest_atom(&clause.positive, widest(&clause.head, 0)),
    );
    assert(fits_width(view, width as int));
    let mut blank: Vec<Option<u32>> = Vec::new();
    let mut b: usize = 0;
    while b < width
        invariant
            b <= width,
            blank@.len() == b,
            forall|j: int| 0 <= j < b ==> #[trigger] blank@[j] is None,
        decreases width - b,
    {
        blank.push(None);
        b += 1;
    }
    let mut rows: Vec<Vec<Option<u32>>> = Vec::new();
    rows.push(blank);
    proof {
        assert forall|r: Row| #[trigger] ast::views(rows@).contains(r) <==> exists|v: spec_fn(
            u32,
        ) -> u32| #[trigger]
            joins(view.positive.take(0), store@, v) && r == live_row(view, 0, width as int, v) by {
            let v = |b: u32| 0u32;
            assert(joins(view.positive.take(0), store@, v));
            assert forall|v: spec_fn(u32) -> u32| blank@ == #[trigger] live_row(
                view,
                0,
                width as int,
                v,
            ) by {
                assert(blank@ =~= live_row(view, 0, width as int, v));
            }
            assert(ast::views(rows@)[0] == blank@);
            assert(ast::views(rows@).len() == 1);
        }
        assert(represents(ast::views(rows@), view, store@, 0, width as int));
    }
    let mut i: usize = 0;
    while i < clause.positive.len()
        invariant
            i <= clause.positive@.len(),
            store.wf(),
            view == clause@,
            clause_valid(view, store@.full.len() as int),
            width <= u32::MAX + 1,
            fits_width(view, width as int),
            forall|j: int| 0 <= j < rows@.len() ==> (#[trigger] rows@[j])@.len() == width,
            represents(ast::views(rows@), view, store@, i as int, width as int),
        decreases clause.positive@.len() - i,
    {
        let atom = &clause.positive[i];
        assert(view.positive[i as int] == atom@);
        assert(atom_valid(view.positive[i as int], store@.full.len() as int));
        proof {
            store.lemma_wf();
            assert(view.live_after[i as int] == clause.live_after@[i as int]@);
            assert forall|b: u32| #[trigger] uses(atom.terms@, b) implies b < width by {
                assert(bound_by(view.positive, b));
            }
        }
        let index: usize = atom.relation.0 as usize;
        let tuples = match atom.version {
            RelationVersion::Full => &store.full[index],
            RelationVersion::Delta => &store.delta[index],
            RelationVersion::Newt => &store.delta[index],
        };
        assert(tuples@ == rows_of(store@, atom@));
        let joined = join_step(&rows, &atom.terms, tuples, &clause.live_after[i], width);
        proof {
            lemma_step_represents(
                ast::views(rows@),
                ast::views(joined@),
                view,
                store@,
                i as int,
                width as int,
            );
        }
        rows = joined;
        i += 1;
    }
    proof {
        assert(view.positive.take(view.positive.len() as int) =~= view.positive);
        assert forall|r: Row| #[trigger] ast::views(rows@).contains(r) <==> exists|v: spec_fn(
            u32,
        ) -> u32| #[trigger]
            holds_upto(view, store@, 0, v) && r == live_row(
                view,
                view.positive.len() as int,
                width as int,
                v,
            ) by {
            assert forall|v: spec_fn(u32) -> u32| #[trigger] holds_upto(view, store@, 0, v)
                <==> joins(view.positive.take(view.positive.len() as int), store@, v) by {}
            if ast::views(rows@).contains(r) {
                let v = choose|v: spec_fn(u32) -> u32| #[trigger]
                    joins(view.positive.take(view.positive.len() as int), store@, v) && r
                        == live_row(view, view.positive.len() as int, width as int, v);
                assert(holds_upto(view, store@, 0, v));
            }
        }
    }
    let mut j: usize = 0;
    while j < clause.negative.len()
        invariant
            j <= clause.negative@.len(),
            store.wf(),
            view == clause@,
            clause_valid(view, store@.full.len() as int),
            width <= u32::MAX + 1,
            fits_width(view, width as int),
            forall|j: int| 0 <= j < rows@.len() ==> (#[trigger] rows@[j])@.len() == width,
            survives(ast::views(rows@), view, store@, j as int, width as int),
        decreases clause.negative@.len() - j,
    {
        let atom = &clause.negative[j];
        assert(view.negative[j as int] == atom@);
        assert(atom_valid(view.negative[j as int], store@.full.len() as int));
        proof {
            store.lemma_wf();
            assert forall|b: u32| #[trigger] uses(atom.terms@, b) implies b < width by {
                assert(bound_by(view.negative, b));
            }
        }
        let index: usize = atom.relation.0 as usize;
        let tuples = &store.full[index];
        assert(tuples@ == store@.full[atom.relation.0 as int]);
        let ghost before = ast::views(rows@);
        rows = filter_step(rows, &atom.terms, tuples, width);
        proof {
            let n = view.positive.len() as int;
            assert forall|r: Row| #[trigger] ast::views(rows@).contains(r) <==> exists|v: spec_fn(
                u32,
            ) -> u32| #[trigger]
                holds_upto(view, store@, j + 1, v) && r == live_row(view, n, width as int, v) by {
                if ast::views(rows@).contains(r) {
                    assert(before.contains(r));
                    let v = choose|v: spec_fn(u32) -> u32| #[trigger]
                        holds_upto(view, store@, j as int, v) && r == live_row(
                            view,
                            n,
                            width as int,
                            v,
                        );
                    lemma_row_matches(view, store@, j as int, width as int, v);
                    assert(holds_upto(view, store@, j + 1, v));
                }
                if exists|v: spec_fn(u32) -> u32| #[trigger]
                    holds_upto(view, store@, j + 1, v) && r == live_row(view, n, width as int, v) {
                    let v = choose|v: spec_fn(u32) -> u32| #[trigger]
                        holds_upto(view, store@, j + 1, v) && r == live_row(
                            view,
                            n,
                            width as int,
                            v,
                        );
                    assert(holds_upto(view, store@, j as int, v));
                    lemma_row_matches(view, store@, j as int, width as int, v);
                    assert(!blocked(view.negative[j as int], view.positive, store@, v));
                    assert(before.contains(r));
                }
            }
        }
        j += 1;
    }
    let ghost n = view.positive.len() as int;
    let mut result = TupleSet::new();
    let mut k: usize = 0;
    while k < rows.len()
        invariant
            k <= rows@.len(),
            n == view.positive.len(),
            view == clause@,
            clause_valid(view, store@.full.len() as int),
            width <= u32::MAX + 1,
            fits_width(view, width as int),
            forall|j: int| 0 <= j < rows@.len() ==> (#[trigger] rows@[j])@.len() == width,
            survives(ast::views(rows@), view, store@, view.negative.len() as int, width as int),
            result.wf(),
            forall|t: Seq<u32>| #[trigger]
                result@.contains(t) <==> exists|c: int, v: spec_fn(u32) -> u32|
                    #![trigger rows@[c], clause_holds(view, store@, v)]
                    0 <= c < k && clause_holds(view, store@, v) && rows@[c]@ == live_row(
                        view,
                        n,
                        width as int,
                        v,
                    ) && t == instance(view.head, v),
        decreases rows@.len() - k,
    {
        let ghost row = rows@[k as int]@;
        assert(ast::views(rows@)[k as int] == row);
        assert(ast::views(rows@).contains(row));
        let ghost v = choose|v: spec_fn(u32) -> u32| #[trigger]
            holds_upto(view, store@, view.negative.len() as int, v) && row == live_row(
                view,
                n,
                width as int,
                v,
            );
        proof {
            assert(clause_holds(view, store@, v));
            assert(view.positive.take(n) =~= view.positive);
            assert forall|b: u32| #[trigger] uses(clause.head@, b) implies b < row.len()
                && row[b as int] is Some by {
                assert(uses(view.head, b));
                assert(is_live(view, n, b));
                lemma_retained(view, n, b);
            }
        }
        let tuple = project_head(&clause.head, &rows[k]);
        let ghost value = tuple@;
        let ghost before = result@;
        proof {
            lemma_live_row_extends(view, n, width as int, v);
        }
        result.insert(tuple);
        proof {
            assert forall|t: Seq<u32>| #[trigger] result@.contains(t) <==> exists|
                c: int,
                v: spec_fn(u32) -> u32,
            |
                #![trigger rows@[c], clause_holds(view, store@, v)]
                0 <= c < k + 1 && clause_holds(view, store@, v) && rows@[c]@ == live_row(
                    view,
                    n,
                    width as int,
                    v,
                ) && t == instance(view.head, v) by {
                if result@.contains(t) {
                    if t == value {
                        assert(rows@[k as int]@ == live_row(view, n, width as int, v)
                            && clause_holds(view, store@, v));
                    } else {
                        assert(before.contains(t));
                        let (c, w) = choose|c: int, v: spec_fn(u32) -> u32|
                            #![trigger rows@[c], clause_holds(view, store@, v)]
                            0 <= c < k && clause_holds(view, store@, v) && rows@[c]@ == live_row(
                                view,
                                n,
                                width as int,
                                v,
                            ) && t == instance(view.head, v);
                        assert(rows@[c]@ == live_row(view, n, width as int, w) && clause_holds(
                            view,
                            store@,
                            w,
                        ));
                    }
                }
                if exists|c: int, v: spec_fn(u32) -> u32|
                    #![trigger rows@[c], clause_holds(view, store@, v)]
                    0 <= c < k + 1 && clause_holds(view, store@, v) && rows@[c]@ == live_row(
                        view,
                        n,
                        width as int,
                        v,
                    ) && t == instance(view.head, v) {
                    let (c, w) = choose|c: int, v: spec_fn(u32) -> u32|
                        #![trigger rows@[c], clause_holds(view, store@, v)]
                        0 <= c < k + 1 && clause_holds(view, store@, v) && rows@[c]@ == live_row(
                            view,
                            n,
                            width as int,
                            v,
                        ) && t == instance(view.head, v);
                    if c == k {
                        lemma_live_row_extends(view, n, width as int, w);
                        assert(t == value);
                    } else {
                        assert(rows@[c]@ == live_row(view, n, width as int, w) && clause_holds(
                            view,
                            store@,
                            w,
                        ));
                        assert(before.contains(t));
                    }
                }
            }
        }
        k += 1;
    }
    proof {
        assert forall|t: Seq<u32>| #[trigger] result@.contains(t) <==> clause_result(
            view,
            store@,
        ).contains(t) by {
            if clause_result(view, store@).contains(t) {
                let v = choose|v: spec_fn(u32) -> u32| #[trigger]
                    clause_holds(view, store@, v) && t == instance(view.head, v);
                assert(holds_upto(view, store@, view.negative.len() as int, v));
                let row = live_row(view, n, width as int, v);
                assert(ast::views(rows@).contains(row));
                let c = choose|c: int| 0 <= c < rows@.len() && ast::views(rows@)[c] == row;
                assert(rows@[c]@ == row);
            }
        }
        assert(result@ =~= clause_result(view, store@));
    }
    result
}

proof fn lemma_live_row_extends(
    clause: ClauseView,
    count: int,
    width: int,
    v: spec_fn(u32) -> u32,
)
    requires
        0 <= width <= u32::MAX + 1,
    ensures
        extends(live_row(clause, count, width, v), v),
{
}

} // verus!
