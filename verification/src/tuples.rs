//! Sets of tuples in lexicographic order.
use vstd::prelude::*;

use crate::ast;

verus! {

/// Whether `a` and `b` agree before position `k` and `a` is smaller there.
pub open spec fn less_at(a: Seq<u32>, b: Seq<u32>, k: int) -> bool {
    &&& 0 <= k <= a.len()
    &&& k < b.len()
    &&& forall|i: int| 0 <= i < k ==> a[i] == b[i]
    &&& k < a.len() ==> a[k] < b[k]
}

/// Lexicographic order: a proper prefix is smaller, else the first difference decides.
pub open spec fn tuple_less(a: Seq<u32>, b: Seq<u32>) -> bool {
    exists|k: int| less_at(a, b, k)
}

pub proof fn lemma_tuple_less_irreflexive(a: Seq<u32>)
    ensures
        !tuple_less(a, a),
{
}

pub proof fn lemma_tuple_less_transitive(a: Seq<u32>, b: Seq<u32>, c: Seq<u32>)
    requires
        tuple_less(a, b),
        tuple_less(b, c),
    ensures
        tuple_less(a, c),
{
    let k = choose|k: int| less_at(a, b, k);
    let l = choose|l: int| less_at(b, c, l);
    let m = if k < l {
        k
    } else {
        l
    };
    assert(less_at(a, c, m));
}

/// The three outcomes of a comparison.
#[derive(Debug, Clone, Copy, PartialEq, Eq, Structural)]
pub enum Rank {
    Below,
    Same,
    Above,
}

/// Compares two tuples lexicographically.
pub fn rank_tuples(a: &Vec<u32>, b: &Vec<u32>) -> (rank: Rank)
    ensures
        rank == Rank::Below <==> tuple_less(a@, b@),
        rank == Rank::Above <==> tuple_less(b@, a@),
        rank == Rank::Same <==> a@ == b@,
{
    let mut i: usize = 0;
    while i < a.len() && i < b.len()
        invariant
            i <= a@.len(),
            i <= b@.len(),
            forall|j: int| 0 <= j < i ==> a@[j] == b@[j],
        decreases a@.len() - i,
    {
        if a[i] < b[i] {
            assert(less_at(a@, b@, i as int));
            proof {
                if tuple_less(b@, a@) {
                    lemma_tuple_less_transitive(a@, b@, a@);
                }
            }
            return Rank::Below;
        }
        if b[i] < a[i] {
            assert(less_at(b@, a@, i as int));
            proof {
                if tuple_less(a@, b@) {
                    lemma_tuple_less_transitive(a@, b@, a@);
                }
            }
            return Rank::Above;
        }
        i += 1;
    }
    if a.len() < b.len() {
        assert(less_at(a@, b@, i as int));
        proof {
            if tuple_less(b@, a@) {
                lemma_tuple_less_transitive(a@, b@, a@);
            }
        }
        Rank::Below
    } else if b.len() < a.len() {
        assert(less_at(b@, a@, i as int));
        proof {
            if tuple_less(a@, b@) {
                lemma_tuple_less_transitive(a@, b@, a@);
            }
        }
        Rank::Above
    } else {
        assert(a@ =~= b@);
        Rank::Same
    }
}

/// Whether a list of tuples is strictly ascending.
pub open spec fn ascending_tuples(rows: Seq<Seq<u32>>) -> bool {
    forall|i: int, j: int|
        #![trigger rows[i], rows[j]]
        0 <= i < j < rows.len() ==> tuple_less(rows[i], rows[j])
}

pub proof fn lemma_ascending_tuples_distinct(rows: Seq<Seq<u32>>)
    requires
        ascending_tuples(rows),
    ensures
        rows.no_duplicates(),
{
    assert forall|i: int, j: int|
        0 <= i < rows.len() && 0 <= j < rows.len() && i != j implies rows[i] != rows[j] by {
        if i < j {
            assert(tuple_less(rows[i], rows[j]));
        } else {
            assert(tuple_less(rows[j], rows[i]));
        }
    }
}

/// Ascending lists with the same tuples are equal.
pub proof fn lemma_ascending_tuples_unique(a: Seq<Seq<u32>>, b: Seq<Seq<u32>>)
    requires
        ascending_tuples(a),
        ascending_tuples(b),
        a.to_set() == b.to_set(),
    ensures
        a == b,
    decreases a.len(),
{
    if a.len() == 0 {
        if b.len() > 0 {
            assert(b.to_set().contains(b[0]));
            assert(a.to_set().contains(b[0]));
        }
        assert(a =~= b);
    } else {
        assert(a.to_set().contains(a.last()));
        assert(b.contains(a.last()));
        let at_b = choose|i: int| 0 <= i < b.len() && b[i] == a.last();
        assert(b.to_set().contains(b.last()));
        assert(a.contains(b.last()));
        let at_a = choose|i: int| 0 <= i < a.len() && a[i] == b.last();
        if a.last() != b.last() {
            assert(tuple_less(b[at_b], b[b.len() - 1]));
            assert(tuple_less(a[at_a], a[a.len() - 1]));
            lemma_tuple_less_transitive(a.last(), b.last(), a.last());
        }
        let x = a.drop_last();
        let y = b.drop_last();
        lemma_ascending_tuples_distinct(a);
        lemma_ascending_tuples_distinct(b);
        assert forall|t: Seq<u32>| #[trigger] x.to_set().contains(t) <==> y.to_set().contains(
            t,
        ) by {
            if x.contains(t) {
                let i = choose|i: int| 0 <= i < x.len() && x[i] == t;
                assert(a[i] == t);
                assert(a.to_set().contains(t));
                assert(b.to_set().contains(t));
                let j = choose|j: int| 0 <= j < b.len() && b[j] == t;
                assert(a[i] != a[a.len() - 1]);
                assert(y[j] == t);
            }
            if y.contains(t) {
                let i = choose|i: int| 0 <= i < y.len() && y[i] == t;
                assert(b[i] == t);
                assert(b.to_set().contains(t));
                assert(a.to_set().contains(t));
                let j = choose|j: int| 0 <= j < a.len() && a[j] == t;
                assert(b[i] != b[b.len() - 1]);
                assert(x[j] == t);
            }
        }
        assert(x.to_set() =~= y.to_set());
        lemma_ascending_tuples_unique(x, y);
        assert(a =~= x.push(a.last()));
        assert(b =~= y.push(b.last()));
    }
}

/// A set of tuples, kept in ascending lexicographic order.
#[derive(Debug, Clone, PartialEq, Eq)]
pub struct TupleSet {
    rows: Vec<Vec<u32>>,
}

impl View for TupleSet {
    type V = Set<Seq<u32>>;

    closed spec fn view(&self) -> Set<Seq<u32>> {
        ast::views(self.rows@).to_set()
    }
}

impl TupleSet {
    /// The tuples in ascending order.
    pub closed spec fn listed(&self) -> Seq<Seq<u32>> {
        ast::views(self.rows@)
    }

    /// Whether the tuples are in ascending order, without repetitions.
    pub closed spec fn wf(&self) -> bool {
        ascending_tuples(ast::views(self.rows@))
    }

    /// The ascending list holds exactly the tuples of the set.
    pub proof fn lemma_listed(&self)
        requires
            self.wf(),
        ensures
            ascending_tuples(self.listed()),
            self.listed().to_set() == self@,
            self.listed().no_duplicates(),
            self@.finite(),
            self@.len() == self.listed().len(),
    {
        lemma_ascending_tuples_distinct(self.listed());
        self.listed().unique_seq_to_set();
        vstd::seq_lib::seq_to_set_is_finite(self.listed());
    }

    /// The empty set.
    pub fn new() -> (set: Self)
        ensures
            set.wf(),
            set@ == Set::<Seq<u32>>::empty(),
    {
        let set = TupleSet { rows: Vec::new() };
        assert(ast::views(set.rows@) =~= Seq::<Seq<u32>>::empty());
        assert(set@ =~= Set::<Seq<u32>>::empty());
        set
    }

    pub fn len(&self) -> (length: usize)
        requires
            self.wf(),
        ensures
            length == self@.len(),
            length == self.listed().len(),
    {
        proof {
            self.lemma_listed();
        }
        self.rows.len()
    }

    pub fn is_empty(&self) -> (empty: bool)
        requires
            self.wf(),
        ensures
            empty == (self@ == Set::<Seq<u32>>::empty()),
    {
        proof {
            self.lemma_listed();
            if self@ == Set::<Seq<u32>>::empty() {
            } else if self@.len() == 0 {
                self@.lemma_len0_is_empty();
            }
        }
        self.rows.len() == 0
    }

    /// The tuple at a position of the ascending list.
    pub fn get(&self, index: usize) -> (tuple: Option<&Vec<u32>>)
        ensures
            tuple is Some <==> index < self.listed().len(),
            tuple matches Some(t) ==> t@ == self.listed()[index as int],
    {
        if index < self.rows.len() {
            Some(&self.rows[index])
        } else {
            None
        }
    }

    /// The tuples in ascending order.
    pub fn as_slice(&self) -> (rows: &[Vec<u32>])
        ensures
            ast::views(rows@) == self.listed(),
    {
        self.rows.as_slice()
    }

    /// The position of the first tuple that is not below `tuple`.
    fn lower_bound(&self, tuple: &Vec<u32>) -> (position: usize)
        requires
            self.wf(),
        ensures
            position <= self.rows@.len(),
            forall|i: int| 0 <= i < position ==> tuple_less(#[trigger] self.listed()[i], tuple@),
            forall|i: int|
                position <= i < self.rows@.len() ==> !tuple_less(
                    #[trigger] self.listed()[i],
                    tuple@,
                ),
    {
        let mut low: usize = 0;
        let mut high: usize = self.rows.len();
        while low < high
            invariant
                low <= high <= self.rows@.len(),
                self.wf(),
                forall|i: int| 0 <= i < low ==> tuple_less(#[trigger] self.listed()[i], tuple@),
                forall|i: int|
                    high <= i < self.rows@.len() ==> !tuple_less(
                        #[trigger] self.listed()[i],
                        tuple@,
                    ),
            decreases high - low,
        {
            let middle: usize = low + (high - low) / 2;
            let rank = rank_tuples(&self.rows[middle], tuple);
            let ghost at = self.listed()[middle as int];
            if rank == Rank::Below {
                proof {
                    assert forall|i: int| 0 <= i < middle + 1 implies tuple_less(
                        #[trigger] self.listed()[i],
                        tuple@,
                    ) by {
                        if i < middle {
                            assert(tuple_less(self.listed()[i], self.listed()[middle as int]));
                            lemma_tuple_less_transitive(self.listed()[i], at, tuple@);
                        }
                    }
                }
                low = middle + 1;
            } else {
                proof {
                    assert forall|i: int| middle <= i < self.rows@.len() implies !tuple_less(
                        #[trigger] self.listed()[i],
                        tuple@,
                    ) by {
                        if i > middle && tuple_less(self.listed()[i], tuple@) {
                            assert(tuple_less(self.listed()[middle as int], self.listed()[i]));
                            lemma_tuple_less_transitive(at, self.listed()[i], tuple@);
                        }
                    }
                }
                high = middle;
            }
        }
        low
    }

    pub fn contains(&self, tuple: &Vec<u32>) -> (found: bool)
        requires
            self.wf(),
        ensures
            found == self@.contains(tuple@),
    {
        let position: usize = self.lower_bound(tuple);
        if position < self.rows.len() && rank_tuples(&self.rows[position], tuple) == Rank::Same {
            assert(self.listed()[position as int] == tuple@);
            true
        } else {
            proof {
                if self.listed().contains(tuple@) {
                    let i = choose|i: int|
                        0 <= i < self.listed().len() && self.listed()[i] == tuple@;
                    lemma_tuple_less_irreflexive(tuple@);
                    if i > position {
                        assert(tuple_less(self.listed()[position as int], self.listed()[i]));
                    }
                }
            }
            false
        }
    }

    /// Adds a tuple, unless it is already there.
    pub fn insert(&mut self, tuple: Vec<u32>) -> (added: bool)
        requires
            old(self).wf(),
        ensures
            final(self).wf(),
            final(self)@ == old(self)@.insert(tuple@),
            added == !old(self)@.contains(tuple@),
    {
        let ghost before = self.listed();
        let present = self.contains(&tuple);
        if present {
            assert(self@ =~= self@.insert(tuple@));
            return false;
        }
        let position: usize = self.lower_bound(&tuple);
        let ghost old_set = self@;
        let ghost value = tuple@;
        let rank_next = if position < self.rows.len() {
            rank_tuples(&self.rows[position], &tuple)
        } else {
            Rank::Above
        };
        self.rows.insert(position, tuple);
        proof {
            let after = self.listed();
            let p = position as int;
            assert(after =~= before.insert(p, value));
            assert forall|i: int, j: int|
                #![trigger after[i], after[j]]
                0 <= i < j < after.len() implies tuple_less(after[i], after[j]) by {
                if j < p {
                    assert(after[i] == before[i] && after[j] == before[j]);
                } else if j == p {
                    assert(after[i] == before[i]);
                } else {
                    assert(after[j] == before[j - 1]);
                    if i < p {
                        assert(after[i] == before[i]);
                        assert(tuple_less(before[i], before[j - 1]));
                    } else if i > p {
                        assert(after[i] == before[i - 1]);
                        assert(tuple_less(before[i - 1], before[j - 1]));
                    } else {
                        assert(before[p] != value) by {
                            if before[p] == value {
                                assert(before.contains(value));
                            }
                        }
                        assert(tuple_less(value, before[p]));
                        if j - 1 > p {
                            assert(tuple_less(before[p], before[j - 1]));
                            lemma_tuple_less_transitive(value, before[p], before[j - 1]);
                        }
                    }
                }
            }
            assert forall|t: Seq<u32>| #[trigger] self@.contains(t) <==> old_set.insert(
                value,
            ).contains(t) by {
                if after.contains(t) {
                    let i = choose|i: int| 0 <= i < after.len() && after[i] == t;
                    if i < p {
                        assert(before[i] == t);
                    } else if i > p {
                        assert(before[i - 1] == t);
                    }
                }
                if before.contains(t) {
                    let i = choose|i: int| 0 <= i < before.len() && before[i] == t;
                    if i < p {
                        assert(after[i] == t);
                    } else {
                        assert(after[i + 1] == t);
                    }
                }
                assert(after[p] == value);
            }
            assert(self@ =~= old_set.insert(value));
        }
        true
    }

    /// Adds every tuple of another set.
    pub fn extend(&mut self, other: &TupleSet)
        requires
            old(self).wf(),
            other.wf(),
        ensures
            final(self).wf(),
            final(self)@ == old(self)@.union(other@),
    {
        let ghost before = self@;
        let mut i: usize = 0;
        assert(other.listed().take(0).to_set() =~= Set::empty());
        assert(before.union(Set::empty()) =~= before);
        while i < other.rows.len()
            invariant
                i <= other.rows@.len(),
                self.wf(),
                self@ == before.union(other.listed().take(i as int).to_set()),
            decreases other.rows@.len() - i,
        {
            let tuple = copy_tuple(&other.rows[i]);
            let ghost value = tuple@;
            self.insert(tuple);
            proof {
                let seen = other.listed().take(i as int);
                assert(other.listed().take(i + 1) =~= seen.push(value));
                seen.lemma_push_to_set_commute(value);
                assert(before.union(seen.push(value).to_set()) =~= before.union(
                    seen.to_set(),
                ).insert(value));
            }
            i += 1;
        }
        assert(other.listed().take(other.rows@.len() as int) =~= other.listed());
    }

    /// A set with the same tuples.
    pub fn copied(&self) -> (copy: TupleSet)
        requires
            self.wf(),
        ensures
            copy.wf(),
            copy@ == self@,
    {
        let mut rows: Vec<Vec<u32>> = Vec::new();
        let mut i: usize = 0;
        while i < self.rows.len()
            invariant
                i <= self.rows@.len(),
                rows@.len() == i,
                forall|j: int| 0 <= j < i ==> (#[trigger] rows@[j])@ == self.rows@[j]@,
            decreases self.rows@.len() - i,
        {
            rows.push(copy_tuple(&self.rows[i]));
            i += 1;
        }
        assert(ast::views(rows@) =~= ast::views(self.rows@));
        TupleSet { rows }
    }
}

/// A vector with the same items.
pub fn copy_tuple(tuple: &Vec<u32>) -> (copy: Vec<u32>)
    ensures
        copy@ == tuple@,
{
    vstd::slice::slice_to_vec(tuple.as_slice())
}

} // verus!
