//! Recursive components over stored binary relations.
use vstd::prelude::*;

use crate::execution;
use crate::execution::{anti_join_auto, distinct_auto, union_auto, Error};
use crate::execution_general;
use crate::index;
use crate::index::U32RangeIndex;
use crate::join;
use crate::join::join_auto;
use crate::pairs;
use crate::placement::{InputProvenance, Placement};
use crate::recursion;
use crate::recursion::{
    anti_join_plan, combine_provenance, distinct_plan, join_plan, placement_provenance,
    union_plan, IterationPlacements, IterationPolicies,
};
use crate::relational::{
    JoinInput, JoinProjection, RecursiveRulePlan, RecursiveSccPlan, RelationId,
};
use crate::rounds;
use crate::rounds::RelationRows;
use crate::storage;
use crate::storage::{RelationBuffer, RelationView};
use crate::text;
use crate::text::decimal_text;
use crate::workspace::{AntiJoinWorkspace, DistinctWorkspace, JoinWorkspace, UnionWorkspace};

verus! {

#[derive(Debug, Clone, Copy, PartialEq, Eq)]
pub enum RelationStoreError {
    Missing(RelationId),
    Duplicate(RelationId),
    NotRecursive(RelationId),
    ArityMismatch { full: usize, delta: usize },
    Storage(storage::Error),
}

impl RelationStoreError {
    /// What the error says.
    pub open spec fn text(self) -> Seq<char> {
        match self {
            RelationStoreError::Missing(id) => "relation "@ + text::decimal(id.0 as nat)
                + " is not registered"@,
            RelationStoreError::Duplicate(id) => "relation "@ + text::decimal(id.0 as nat)
                + " is already registered"@,
            RelationStoreError::NotRecursive(id) => "relation "@ + text::decimal(id.0 as nat)
                + " has no DELTA/NEWT state"@,
            RelationStoreError::ArityMismatch { full, delta } => "FULL arity "@ + text::decimal(
                full as nat,
            ) + " differs from DELTA arity "@ + text::decimal(delta as nat),
            RelationStoreError::Storage(error) => error.text(),
        }
    }

    pub fn message(&self) -> (message: String)
        ensures
            message@ == self.text(),
    {
        match self {
            RelationStoreError::Missing(id) => about_relation(*id, " is not registered"),
            RelationStoreError::Duplicate(id) => about_relation(*id, " is already registered"),
            RelationStoreError::NotRecursive(id) => about_relation(
                *id,
                " has no DELTA/NEWT state",
            ),
            RelationStoreError::ArityMismatch { full, delta } => {
                let mut message = "FULL arity ".to_owned();
                let full = decimal_text(*full);
                message.append(full.as_str());
                message.append(" differs from DELTA arity ");
                let delta = decimal_text(*delta);
                message.append(delta.as_str());
                message
            },
            RelationStoreError::Storage(error) => error.message(),
        }
    }
}

fn about_relation(id: RelationId, rest: &str) -> (message: String)
    ensures
        message@ == "relation "@ + text::decimal(id.0 as nat) + rest@,
{
    let mut message = "relation ".to_owned();
    let number = decimal_text(id.0 as usize);
    message.append(number.as_str());
    message.append(rest);
    message
}

/// A stored relation: what is known and, of a recursive one, what is newest. A version number tells
/// states of it apart.
pub struct StoredRelation {
    pub full: RelationBuffer,
    pub delta: Option<RelationBuffer>,
    pub spare: Option<RelationBuffer>,
    pub full_provenance: InputProvenance,
    pub delta_provenance: InputProvenance,
    pub version: u64,
}

/// The columns behind the first two.
pub open spec fn further_columns(buffer: RelationBuffer) -> Seq<Seq<u32>> {
    let columns = buffer.contents();
    Seq::new(
        if columns.len() > 2 {
            (columns.len() - 2) as nat
        } else {
            0
        },
        |c: int| columns[c + 2].take(buffer.rows() as int),
    )
}

impl StoredRelation {
    /// Whether the buffers are in order, and are of binary relations all or none.
    pub open spec fn wf(self) -> bool {
        &&& self.full.wf()
        &&& self.delta is Some <==> self.spare is Some
        &&& self.delta matches Some(delta) ==> {
            &&& delta.wf()
            &&& delta.contents().len() >= 2 <==> self.full.contents().len() >= 2
        }
        &&& self.spare matches Some(spare) ==> {
            &&& spare.wf()
            &&& spare.contents().len() >= 2 <==> self.full.contents().len() >= 2
        }
    }

    /// The rows of the relation.
    pub open spec fn pairs(self) -> RelationRows {
        RelationRows {
            full: self.full.pairs(),
            delta: match self.delta {
                Some(delta) => delta.pairs(),
                None => Seq::empty(),
            },
            rest: match self.delta {
                Some(_) => Seq::empty(),
                None => further_columns(self.full),
            },
        }
    }

    /// Whether a column is there, and is one that rounds do not leave undefined.
    pub open spec fn has_column(self, column: u32) -> bool {
        &&& (column as int) < self.full.contents().len()
        &&& column < 2 || self.delta is None
    }
}

/// The relations of a program, by number.
pub struct RelationStore {
    relations: Vec<Option<StoredRelation>>,
}

/// A relation with given rows, which no rule derives.
pub open spec fn is_stored(
    relation: StoredRelation,
    full: RelationView<'_>,
    delta: Option<RelationView<'_>>,
    provenance: InputProvenance,
) -> bool {
    &&& relation.full.rows() == full.rows()
    &&& relation.full.contents() == Seq::new(
        full@.len(),
        |i: int| full@[i].take(full.rows() as int),
    )
    &&& relation.delta is Some <==> delta is Some
    &&& delta matches Some(newest) ==> {
        &&& relation.delta->0.rows() == newest.rows()
        &&& relation.delta->0.contents() == Seq::new(
            newest@.len(),
            |i: int| newest@[i].take(newest.rows() as int),
        )
    }
    &&& relation.full_provenance == provenance
    &&& relation.delta_provenance == provenance
    &&& relation.version == 0
}

impl Default for RelationStore {
    fn default() -> (store: Self)
        ensures
            store.wf(),
            forall|id: RelationId| #[trigger] store.get(id) is None,
    {
        RelationStore::new()
    }
}

impl RelationStore {
    /// A relation of the store.
    pub closed spec fn get(&self, id: RelationId) -> Option<StoredRelation> {
        if (id.0 as int) < self.relations@.len() {
            self.relations@[id.0 as int]
        } else {
            None
        }
    }

    pub closed spec fn wf(&self) -> bool {
        forall|i: int|
            0 <= i < self.relations@.len() ==> ((#[trigger] self.relations@[i]) matches Some(
                relation,
            ) ==> relation.wf())
    }

    /// The pairs of every relation.
    pub open spec fn pairs(&self) -> rounds::Relations {
        |id: RelationId|
            match self.get(id) {
                Some(relation) => relation.pairs(),
                None => RelationRows { full: Seq::empty(), delta: Seq::empty(), rest: Seq::empty() },
            }
    }

    /// Which relations there are, and which have newest rows.
    pub open spec fn kinds(&self) -> RelationKinds {
        |id: RelationId|
            match self.get(id) {
                Some(relation) => Some(relation.delta is Some),
                None => None,
            }
    }

    pub proof fn lemma_wf(&self, id: RelationId)
        requires
            self.wf(),
        ensures
            self.get(id) matches Some(relation) ==> relation.wf(),
    {
        if (id.0 as int) < self.relations@.len() {
            let found = self.relations@[id.0 as int];
        }
    }

    pub fn new() -> (store: Self)
        ensures
            store.wf(),
            forall|id: RelationId| #[trigger] store.get(id) is None,
    {
        RelationStore { relations: Vec::new() }
    }

    /// Adds a relation that no rule derives.
    pub fn insert_static(
        &mut self,
        id: RelationId,
        relation: RelationView<'_>,
        provenance: InputProvenance,
    ) -> (result: Result<(), RelationStoreError>)
        requires
            old(self).wf(),
            relation.wf(),
            id.0 < usize::MAX,
        ensures
            final(self).wf(),
            forall|other: RelationId|
                other != id ==> #[trigger] final(self).get(other) == old(self).get(other),
            match result {
                Ok(_) => {
                    &&& old(self).get(id) is None
                    &&& final(self).get(id) is Some
                    &&& is_stored(final(self).get(id)->0, relation, None, provenance)
                },
                Err(error) => {
                    &&& final(self).get(id) == old(self).get(id)
                    &&& if relation@.len() == 0 || storage::size_fits::<u32>(relation.rows()) {
                        old(self).get(id) is Some && error == RelationStoreError::Duplicate(id)
                    } else {
                        error == RelationStoreError::Storage(storage::Error::LengthOverflow)
                    }
                },
            },
    {
        let full = match RelationBuffer::from_view(relation) {
            Ok(full) => full,
            Err(error) => {
                return Err(RelationStoreError::Storage(error));
            },
        };
        self.insert(
            id,
            StoredRelation {
                full,
                delta: None,
                spare: None,
                full_provenance: provenance,
                delta_provenance: provenance,
                version: 0,
            },
        )
    }

    /// Adds a relation that rules derive: what is known of it at first, and what of that is newest.
    pub fn insert_recursive(
        &mut self,
        id: RelationId,
        full: RelationView<'_>,
        delta: RelationView<'_>,
        provenance: InputProvenance,
    ) -> (result: Result<(), RelationStoreError>)
        requires
            old(self).wf(),
            full.wf(),
            delta.wf(),
            id.0 < usize::MAX,
        ensures
            final(self).wf(),
            forall|other: RelationId|
                other != id ==> #[trigger] final(self).get(other) == old(self).get(other),
            match result {
                Ok(_) => {
                    &&& old(self).get(id) is None
                    &&& final(self).get(id) is Some
                    &&& is_stored(final(self).get(id)->0, full, Some(delta), provenance)
                },
                Err(error) => {
                    &&& final(self).get(id) == old(self).get(id)
                    &&& if full@.len() != delta@.len() {
                        error == (RelationStoreError::ArityMismatch {
                            full: full@.len() as usize,
                            delta: delta@.len() as usize,
                        })
                    } else if full@.len() == 0 || (storage::size_fits::<u32>(full.rows())
                        && storage::size_fits::<u32>(delta.rows())) {
                        old(self).get(id) is Some && error == RelationStoreError::Duplicate(id)
                    } else {
                        error == RelationStoreError::Storage(storage::Error::LengthOverflow)
                    }
                },
            },
    {
        broadcast use vstd::layout::layout_of_primitives;

        if full.arity() != delta.arity() {
            return Err(
                RelationStoreError::ArityMismatch { full: full.arity(), delta: delta.arity() },
            );
        }
        let known = match RelationBuffer::from_view(full) {
            Ok(known) => known,
            Err(error) => {
                return Err(RelationStoreError::Storage(error));
            },
        };
        let newest = match RelationBuffer::from_view(delta) {
            Ok(newest) => newest,
            Err(error) => {
                return Err(RelationStoreError::Storage(error));
            },
        };
        let spare = match RelationBuffer::with_capacity(full.arity(), 0) {
            Ok(spare) => spare,
            Err(error) => {
                return Err(RelationStoreError::Storage(error));
            },
        };
        self.insert(
            id,
            StoredRelation {
                full: known,
                delta: Some(newest),
                spare: Some(spare),
                full_provenance: provenance,
                delta_provenance: provenance,
                version: 0,
            },
        )
    }

    fn insert(&mut self, id: RelationId, relation: StoredRelation) -> (result: Result<
        (),
        RelationStoreError,
    >)
        requires
            old(self).wf(),
            relation.wf(),
            id.0 < usize::MAX,
        ensures
            final(self).wf(),
            forall|other: RelationId|
                other != id ==> #[trigger] final(self).get(other) == old(self).get(other),
            match result {
                Ok(_) => old(self).get(id) is None && final(self).get(id) == Some(relation),
                Err(error) => {
                    &&& old(self).get(id) is Some
                    &&& error == RelationStoreError::Duplicate(id)
                    &&& final(self).get(id) == old(self).get(id)
                },
            },
    {
        let index: usize = id.0 as usize;
        let ghost before = *self;
        while self.relations.len() <= index
            invariant
                self.wf(),
                index < usize::MAX,
                index == id.0,
                self.relations@.len() <= index + 1 || self.relations@.len()
                    == before.relations@.len(),
                forall|other: RelationId| #[trigger] self.get(other) == before.get(other),
            decreases index + 1 - self.relations@.len(),
        {
            let ghost shorter = *self;
            self.relations.push(None);
            assert forall|other: RelationId| #[trigger] self.get(other) == before.get(other) by {
                assert(self.get(other) == shorter.get(other));
            }
        }
        if self.relations[index].is_some() {
            return Err(RelationStoreError::Duplicate(id));
        }
        let ghost longer = *self;
        self.relations.set(index, Some(relation));
        assert forall|other: RelationId| other != id implies #[trigger] self.get(other)
            == before.get(other) by {
            assert(longer.get(other) == before.get(other));
            assert(other.0 != id.0);
        }
        Ok(())
    }

    /// What is known of a relation.
    pub fn full(&self, id: RelationId) -> (result: Result<&RelationBuffer, RelationStoreError>)
        ensures
            match result {
                Ok(full) => self.get(id) is Some && *full == self.get(id)->0.full,
                Err(error) => self.get(id) is None && error == RelationStoreError::Missing(id),
            },
    {
        match self.state(id) {
            Ok(relation) => Ok(&relation.full),
            Err(error) => Err(error),
        }
    }

    /// What is newest of a relation.
    pub fn delta(&self, id: RelationId) -> (result: Result<&RelationBuffer, RelationStoreError>)
        ensures
            match self.get(id) {
                None => result is Err && result->Err_0 == RelationStoreError::Missing(id),
                Some(relation) => match relation.delta {
                    None => result is Err && result->Err_0 == RelationStoreError::NotRecursive(id),
                    Some(delta) => result is Ok && *result->Ok_0 == delta,
                },
            },
    {
        match self.state(id) {
            Ok(relation) => match &relation.delta {
                Some(delta) => Ok(delta),
                None => Err(RelationStoreError::NotRecursive(id)),
            },
            Err(error) => Err(error),
        }
    }

    pub fn full_provenance(&self, id: RelationId) -> (result: Result<
        InputProvenance,
        RelationStoreError,
    >)
        ensures
            match result {
                Ok(provenance) => self.get(id) is Some && provenance
                    == self.get(id)->0.full_provenance,
                Err(error) => self.get(id) is None && error == RelationStoreError::Missing(id),
            },
    {
        match self.state(id) {
            Ok(relation) => Ok(relation.full_provenance),
            Err(error) => Err(error),
        }
    }

    fn state(&self, id: RelationId) -> (result: Result<&StoredRelation, RelationStoreError>)
        ensures
            match result {
                Ok(relation) => self.get(id) == Some(*relation),
                Err(error) => self.get(id) is None && error == RelationStoreError::Missing(id),
            },
    {
        let index: usize = id.0 as usize;
        if index < self.relations.len() {
            match &self.relations[index] {
                Some(relation) => Ok(relation),
                None => Err(RelationStoreError::Missing(id)),
            }
        } else {
            Err(RelationStoreError::Missing(id))
        }
    }

    /// Takes a relation out of the store.
    fn take(&mut self, id: RelationId) -> (result: Result<StoredRelation, RelationStoreError>)
        requires
            old(self).wf(),
        ensures
            final(self).wf(),
            forall|other: RelationId|
                other != id ==> #[trigger] final(self).get(other) == old(self).get(other),
            match result {
                Ok(relation) => {
                    &&& old(self).get(id) == Some(relation)
                    &&& relation.wf()
                    &&& final(self).get(id) is None
                    &&& final(self).has_slot(id)
                },
                Err(error) => {
                    &&& old(self).get(id) is None
                    &&& error == RelationStoreError::Missing(id)
                    &&& final(self).get(id) is None
                },
            },
    {
        let index: usize = id.0 as usize;
        if index < self.relations.len() {
            let mut slot: Option<StoredRelation> = None;
            std::mem::swap(&mut slot, &mut self.relations[index]);
            match slot {
                Some(relation) => Ok(relation),
                None => Err(RelationStoreError::Missing(id)),
            }
        } else {
            Err(RelationStoreError::Missing(id))
        }
    }

    /// Whether there is a place for a relation.
    closed spec fn has_slot(&self, id: RelationId) -> bool {
        (id.0 as int) < self.relations@.len()
    }

    /// Puts a relation back into its place.
    fn put_back(&mut self, id: RelationId, relation: StoredRelation)
        requires
            old(self).wf(),
            old(self).has_slot(id),
            relation.wf(),
        ensures
            final(self).wf(),
            forall|other: RelationId|
                other != id ==> #[trigger] final(self).get(other) == old(self).get(other),
            final(self).get(id) == Some(relation),
    {
        self.relations.set(id.0 as usize, Some(relation));
    }
}

/// What a component error says.
pub enum GenericErrorView {
    Store(RelationStoreError),
    Storage(storage::Error),
    Execution(execution::ErrorView),
    EmptyScc,
    TargetOutsideScc(RelationId),
    DuplicateRuleTarget(RelationId),
    MissingRuleTarget(RelationId),
    MissingPlanColumn { relation: RelationId, column: u32 },
    IterationLimit { limit: usize, remaining_delta_rows: usize },
}

#[derive(Debug, Clone, Copy, PartialEq, Eq)]
pub enum GenericExecutionError {
    Store(RelationStoreError),
    Storage(storage::Error),
    Execution(Error),
    EmptyScc,
    TargetOutsideScc(RelationId),
    /// A relation with several rules. A component takes any number of them, so none is refused for
    /// this.
    DuplicateRuleTarget(RelationId),
    MissingRuleTarget(RelationId),
    MissingPlanColumn { relation: RelationId, column: u32 },
    IterationLimit { limit: usize, remaining_delta_rows: usize },
}

impl View for GenericExecutionError {
    type V = GenericErrorView;

    open spec fn view(&self) -> GenericErrorView {
        match *self {
            GenericExecutionError::Store(error) => GenericErrorView::Store(error),
            GenericExecutionError::Storage(error) => GenericErrorView::Storage(error),
            GenericExecutionError::Execution(error) => GenericErrorView::Execution(error@),
            GenericExecutionError::EmptyScc => GenericErrorView::EmptyScc,
            GenericExecutionError::TargetOutsideScc(id) => GenericErrorView::TargetOutsideScc(id),
            GenericExecutionError::DuplicateRuleTarget(
                id,
            ) => GenericErrorView::DuplicateRuleTarget(id),
            GenericExecutionError::MissingRuleTarget(id) => GenericErrorView::MissingRuleTarget(
                id,
            ),
            GenericExecutionError::MissingPlanColumn {
                relation,
                column,
            } => GenericErrorView::MissingPlanColumn { relation, column },
            GenericExecutionError::IterationLimit {
                limit,
                remaining_delta_rows,
            } => GenericErrorView::IterationLimit { limit, remaining_delta_rows },
        }
    }
}

/// The text of a component error.
pub open spec fn generic_error_text(error: GenericErrorView) -> Seq<char> {
    match error {
        GenericErrorView::Store(error) => error.text(),
        GenericErrorView::Storage(error) => error.text(),
        GenericErrorView::Execution(error) => execution::error_text(error),
        GenericErrorView::EmptyScc => "recursive SCC has no relations"@,
        GenericErrorView::TargetOutsideScc(id) => "rule target "@ + text::decimal(id.0 as nat)
            + " is outside its SCC"@,
        GenericErrorView::DuplicateRuleTarget(id) => "relation "@ + text::decimal(id.0 as nat)
            + " has multiple rules"@,
        GenericErrorView::MissingRuleTarget(id) => "relation "@ + text::decimal(id.0 as nat)
            + " has no recursive rule"@,
        GenericErrorView::MissingPlanColumn { relation, column } => "relation "@ + text::decimal(
            relation.0 as nat,
        ) + " has no planned column "@ + text::decimal(column as nat),
        GenericErrorView::IterationLimit {
            limit,
            remaining_delta_rows,
        } => "recursive SCC did not converge within "@ + text::decimal(limit as nat)
            + " iterations; "@ + text::decimal(remaining_delta_rows as nat)
            + " delta rows remain"@,
    }
}

impl GenericExecutionError {
    pub fn message(&self) -> (message: String)
        ensures
            message@ == generic_error_text(self@),
    {
        match self {
            GenericExecutionError::Store(error) => error.message(),
            GenericExecutionError::Storage(error) => error.message(),
            GenericExecutionError::Execution(error) => error.message(),
            GenericExecutionError::EmptyScc => "recursive SCC has no relations".to_owned(),
            GenericExecutionError::TargetOutsideScc(id) => {
                let mut message = "rule target ".to_owned();
                let number = decimal_text(id.0 as usize);
                message.append(number.as_str());
                message.append(" is outside its SCC");
                message
            },
            GenericExecutionError::DuplicateRuleTarget(id) => about_relation(
                *id,
                " has multiple rules",
            ),
            GenericExecutionError::MissingRuleTarget(id) => about_relation(
                *id,
                " has no recursive rule",
            ),
            GenericExecutionError::MissingPlanColumn { relation, column } => {
                let mut message = about_relation(*relation, " has no planned column ");
                let column = decimal_text(*column as usize);
                message.append(column.as_str());
                message
            },
            GenericExecutionError::IterationLimit { limit, remaining_delta_rows } => {
                let mut message = "recursive SCC did not converge within ".to_owned();
                let limit = decimal_text(*limit);
                message.append(limit.as_str());
                message.append(" iterations; ");
                let rows = decimal_text(*remaining_delta_rows);
                message.append(rows.as_str());
                message.append(" delta rows remain");
                message
            },
        }
    }
}

/// Whether a rule joins on the first two columns, keeps two columns of what it joins, in any order,
/// and subtracts and unites on two columns in order.
pub open spec fn is_binary_rule(rule: RecursiveRulePlan) -> bool {
    &&& recursion::is_binary_join(rule.join)
    &&& rule.distinct.columns@[0] < 2
    &&& rule.distinct.columns@[1] < 2
    &&& updates_in_order(rule)
}

/// Whether a rule keeps the two columns of what it joins in order, too.
pub open spec fn reads_in_order(rule: RecursiveRulePlan) -> bool {
    &&& recursion::in_order(rule.distinct.columns@)
    &&& updates_in_order(rule)
}

/// Whether a rule subtracts and unites on two columns in order.
pub open spec fn updates_in_order(rule: RecursiveRulePlan) -> bool {
    &&& recursion::in_order(rule.anti_join.left@)
    &&& recursion::in_order(rule.anti_join.right@)
    &&& recursion::in_order(rule.union.left@)
    &&& recursion::in_order(rule.union.right@)
}

/// The index of a column of a relation in one of its states.
struct CachedIndex {
    relation: RelationId,
    version: u64,
    column: u32,
    index: U32RangeIndex,
}

/// Where the operators of a rule ran in a round.
#[derive(Debug, Clone, Copy)]
struct PendingRule {
    join: Placement,
    distinct: Placement,
}

/// A rule with its buffers.
struct RuleRuntime {
    plan: RecursiveRulePlan,
    index: Option<CachedIndex>,
    candidates: JoinWorkspace,
    distinct: DistinctWorkspace,
    pending: Option<PendingRule>,
}

/// Whether a view shows the rows of a buffer.
spec fn shows(view: RelationView<'_>, buffer: RelationBuffer) -> bool {
    view@ == buffer.contents() && view.rows() == buffer.rows()
}

/// Whether an index lists the rows of a column of a buffer.
spec fn indexes_buffer(index: U32RangeIndex, buffer: RelationBuffer, column: u32) -> bool {
    &&& index.wf()
    &&& index.count() == buffer.rows()
    &&& (column as int) < buffer.contents().len()
    &&& forall|key: u32| #[trigger]
        index.postings(key) == index::matching_rows(
            buffer.contents()[column as int].take(buffer.rows() as int),
            key,
        )
}

impl RuleRuntime {
    spec fn wf(&self) -> bool {
        &&& self.candidates@.wf()
        &&& self.candidates@.output.contents().len() == 2
        &&& self.distinct.wf()
        &&& self.index matches Some(cached) ==> cached.index.wf()
    }

    /// Whether an index that will be used again is one of the relation as it is.
    spec fn cache_valid(&self, store: RelationStore) -> bool {
        self.index matches Some(cached) ==> (store.get(self.plan.right_input) matches Some(
            right,
        ) ==> (cached.relation == self.plan.right_input && cached.version == right.version
            && cached.column == self.plan.join.right_key ==> indexes_buffer(
            cached.index,
            right.full,
            self.plan.join.right_key,
        )))
    }

    /// Whether the index is one of the relation as it is.
    spec fn cache_current(&self, store: RelationStore) -> bool {
        &&& self.index is Some
        &&& store.get(self.plan.right_input) is Some
        &&& self.index->0.version == store.get(self.plan.right_input)->0.version
    }

    fn new(plan: RecursiveRulePlan) -> (result: Result<Self, storage::Error>)
        ensures
            result is Ok,
            result->Ok_0.wf(),
            result->Ok_0.plan == plan,
            result->Ok_0.index is None,
            result->Ok_0.pending is None,
    {
        let candidates = match JoinWorkspace::new(2) {
            Ok(candidates) => candidates,
            Err(error) => {
                return Err(error);
            },
        };
        let distinct = match DistinctWorkspace::new() {
            Ok(distinct) => distinct,
            Err(error) => {
                return Err(error);
            },
        };
        Ok(RuleRuntime { plan, index: None, candidates, distinct, pending: None })
    }

    /// Makes the index of the right input current.
    fn refresh_index(&mut self, right: &StoredRelation, Ghost(store): Ghost<RelationStore>) -> (result:
        Result<(), GenericExecutionError>)
        requires
            old(self).wf(),
            right.wf(),
            store.get(old(self).plan.right_input) == Some(*right),
            old(self).cache_valid(store),
        ensures
            final(self).wf(),
            final(self).plan == old(self).plan,
            final(self).candidates == old(self).candidates,
            final(self).distinct == old(self).distinct,
            final(self).cache_valid(store),
            result is Ok ==> {
                &&& final(self).cache_current(store)
                &&& indexes_buffer(
                    final(self).index->0.index,
                    right.full,
                    old(self).plan.join.right_key,
                )
            },
            result matches Err(error) ==> {
                let column = old(self).plan.join.right_key;
                if (column as int) < right.full.contents().len() {
                    ||| error@ == GenericErrorView::Storage(storage::Error::LengthOverflow)
                    ||| error@ == GenericErrorView::Storage(
                        storage::Error::TooManyRows(right.full.rows() as usize),
                    ) && right.full.rows() > u32::MAX
                } else {
                    error@ == GenericErrorView::MissingPlanColumn {
                        relation: old(self).plan.right_input,
                        column,
                    }
                }
            },
            right.full.rows() <= u32::MAX && (old(self).plan.join.right_key as int)
                < right.full.contents().len() && storage::size_fits::<u32>(right.full.rows() + 1)
                ==> result is Ok,
            (old(self).plan.join.right_key as int) >= right.full.contents().len() ==> result is Err,
    {
        let column: u32 = self.plan.join.right_key;
        let view = right.full.view();
        let values = match view.column_slice(column as usize) {
            Some(values) => values,
            None => {
                return Err(
                    GenericExecutionError::MissingPlanColumn {
                        relation: self.plan.right_input,
                        column,
                    },
                );
            },
        };
        let rebuild = match &self.index {
            Some(cached) => cached.relation.0 != self.plan.right_input.0 || cached.version
                != right.version || cached.column != column,
            None => true,
        };
        if rebuild {
            proof {
                assert(right.full.contents()[column as int].len() == right.full.room());
                vstd::seq_lib::seq_to_set_is_finite(values@);
                values@.lemma_cardinality_of_set();
            }
            match U32RangeIndex::build_slice(values) {
                Ok(index) => {
                    proof {
                        assert(right.full.contents()[column as int].len() == right.full.room());
                        assert(values@.len() == right.full.rows());
                    }
                    self.index =
                    Some(
                        CachedIndex {
                            relation: self.plan.right_input,
                            version: right.version,
                            column,
                            index,
                        },
                    );
                },
                Err(error) => {
                    return Err(GenericExecutionError::Storage(error));
                },
            }
        }
        Ok(())
    }
}

/// Why a rule cannot find its relations, if so.
pub open spec fn lookup_problem(store: RelationStore, rule: RecursiveRulePlan) -> Option<
    GenericErrorView,
> {
    if store.get(rule.delta_input) is None {
        Some(GenericErrorView::Store(RelationStoreError::Missing(rule.delta_input)))
    } else if store.get(rule.right_input) is None {
        Some(GenericErrorView::Store(RelationStoreError::Missing(rule.right_input)))
    } else if store.get(rule.target) is None {
        Some(GenericErrorView::Store(RelationStoreError::Missing(rule.target)))
    } else if store.get(rule.delta_input)->0.delta is None {
        Some(GenericErrorView::Store(RelationStoreError::NotRecursive(rule.delta_input)))
    } else {
        None
    }
}

/// Whether a rule finds its relations, but not the column of the right one that it joins on.
pub open spec fn lacks_key(store: RelationStore, rule: RecursiveRulePlan) -> bool {
    &&& lookup_problem(store, rule) is None
    &&& rule.join.right_key >= store.get(rule.right_input)->0.full.contents().len()
}

/// The error of a rule whose right relation lacks the column that it joins on.
pub open spec fn missing_key(rule: RecursiveRulePlan) -> GenericErrorView {
    GenericErrorView::MissingPlanColumn { relation: rule.right_input, column: rule.join.right_key }
}

/// Whether the rows of the relation that a rule joins with can be numbered.
pub open spec fn is_numbered(store: RelationStore, rule: RecursiveRulePlan) -> bool {
    &&& store.get(rule.right_input) is Some
    &&& store.get(rule.right_input)->0.full.rows() <= u32::MAX
}

/// Whether a projection takes a column that there is: one of the first two from the left, or any
/// that is known from the right.
pub open spec fn takes_column(projection: JoinProjection, right: StoredRelation) -> bool {
    match projection.input {
        JoinInput::Left => projection.column < 2,
        JoinInput::Right => right.has_column(projection.column),
    }
}

/// Whether a rule reads columns that there are, of relations that are binary but for the one that it
/// joins with, and what is known of its target is in ascending order.
pub open spec fn is_ready(store: RelationStore, rule: RecursiveRulePlan) -> bool {
    &&& rule.distinct.columns@[0] < 2
    &&& rule.distinct.columns@[1] < 2
    &&& updates_in_order(rule)
    &&& rule.join.left_key < 2
    &&& store.get(rule.delta_input) is Some
    &&& store.get(rule.right_input) is Some
    &&& store.get(rule.target) is Some
    &&& store.get(rule.delta_input)->0.delta is Some
    &&& store.get(rule.target)->0.delta is Some
    &&& store.get(rule.delta_input)->0.full.contents().len() >= 2
    &&& store.get(rule.right_input)->0.has_column(rule.join.right_key)
    &&& takes_column(rule.join.output@[0], store.get(rule.right_input)->0)
    &&& takes_column(rule.join.output@[1], store.get(rule.right_input)->0)
    &&& store.get(rule.target)->0.full.contents().len() >= 2
    &&& pairs::pairs_ascending(store.get(rule.target)->0.full.pairs())
}

/// Whether the sizes of a rule in a round stay within what rows can be numbered and held.
pub open spec fn rule_fits(rule: RecursiveRulePlan, relations: rounds::Relations) -> bool {
    let delta = relations(rule.delta_input).delta;
    let right = relations(rule.right_input).full;
    let joined = rounds::joined_pairs(rule, relations);
    &&& delta.len() <= u32::MAX
    &&& right.len() <= u32::MAX
    &&& joined.len() <= u32::MAX
    &&& joined.len() <= usize::MAX
    &&& storage::size_fits::<u32>(right.len() + 1)
    &&& storage::size_fits::<u64>(storage::grown(delta.len()))
    &&& storage::size_fits::<u32>(storage::grown(joined.len()))
}

/// Whether uniting what rules of one relation join stays within bounds.
pub open spec fn gathering_fits(
    rules: Seq<RecursiveRulePlan>,
    relations: rounds::Relations,
) -> bool
    decreases rules.len(),
{
    if rules.len() == 0 {
        true
    } else {
        let earlier = rounds::distinct_list(rounds::contributed(rules.drop_last(), relations));
        let own = rounds::distinct_list(rounds::joined_pairs(rules.last(), relations));
        &&& gathering_fits(rules.drop_last(), relations)
        &&& own.len() <= u32::MAX
        &&& rules.len() > 1 ==> {
            &&& earlier.len() <= u32::MAX
            &&& earlier.len() + own.len() <= usize::MAX
            &&& storage::size_fits::<u32>(storage::grown(earlier.len() + own.len()))
        }
    }
}

/// Whether the sizes of a relation in a round stay within bounds.
pub open spec fn target_fits(
    rules: Seq<RecursiveRulePlan>,
    id: RelationId,
    relations: rounds::Relations,
) -> bool {
    let own = rounds::rules_for(rules, id);
    let all = rounds::distinct_list(rounds::contributed(own, relations));
    let full = relations(id).full;
    let new = rounds::new_pairs(rules, id, relations);
    &&& gathering_fits(own, relations)
    &&& all.len() <= u32::MAX
    &&& full.len() <= u32::MAX
    &&& new.len() <= u32::MAX
    &&& full.len() + new.len() <= usize::MAX
    &&& storage::size_fits::<u32>(storage::grown(all.len()))
    &&& storage::size_fits::<u32>(storage::grown(full.len() + new.len()))
}

/// Where the operators of a rule run without a device.
pub open spec fn rule_placements(
    policies: IterationPolicies,
    rule: RecursiveRulePlan,
    relations: rounds::Relations,
) -> (Placement, Placement) {
    let places = recursion::derive_placements(
        policies,
        relations(rule.delta_input).delta.len(),
        rounds::joined_pairs(rule, relations).len(),
        0,
    );
    (places.0, places.1)
}

/// Where the operators of a relation run without a device: subtracting what is known, and uniting.
pub open spec fn target_placements(
    policies: IterationPolicies,
    rules: Seq<RecursiveRulePlan>,
    id: RelationId,
    relations: rounds::Relations,
) -> (Placement, Placement) {
    let all = rounds::distinct_list(
        rounds::contributed(rounds::rules_for(rules, id), relations),
    );
    (
        recursion::derive_placements(policies, 0, 0, all.len()).2,
        recursion::update_placement(
            policies,
            relations(id).full.len(),
            rounds::new_pairs(rules, id, relations).len(),
        ),
    )
}

/// Where the operators of each rule of a relation run without a device.
pub open spec fn placements_for(
    policies: IterationPolicies,
    rules: Seq<RecursiveRulePlan>,
    id: RelationId,
    relations: rounds::Relations,
) -> Seq<(RelationId, IterationPlacements)> {
    let own = rounds::rules_for(rules, id);
    let shared = target_placements(policies, rules, id, relations);
    Seq::new(
        own.len(),
        |k: int|
            {
                let places = rule_placements(policies, own[k], relations);
                (
                    id,
                    IterationPlacements {
                        join: places.0,
                        distinct: places.1,
                        anti_join: shared.0,
                        union: shared.1,
                    },
                )
            },
    )
}

impl RuleRuntime {
    /// Finds the pairs that the rule joins in this round.
    fn evaluate(&mut self, store: &RelationStore, policies: IterationPolicies) -> (result: Result<
        InputProvenance,
        GenericExecutionError,
    >)
        requires
            old(self).wf(),
            store.wf(),
            old(self).cache_valid(*store),
        ensures
            final(self).wf(),
            final(self).plan == old(self).plan,
            final(self).cache_valid(*store),
            result is Ok ==> {
                &&& lookup_problem(*store, old(self).plan) is None
                &&& final(self).pending is Some
                &&& final(self).cache_current(*store)
                &&& result->Ok_0 == InputProvenance::Cpu
            },
            result is Ok && is_ready(*store, old(self).plan) ==> {
                let found = rounds::distinct_list(
                    rounds::joined_pairs(old(self).plan, store.pairs()),
                );
                let places = rule_placements(policies, old(self).plan, store.pairs());
                &&& final(self).distinct.buffer().pairs() == found
                &&& pairs::pairs_ascending(found)
                &&& final(self).pending == Some(PendingRule { join: places.0, distinct: places.1 })
            },
            result is Ok ==> is_numbered(*store, old(self).plan),
            lookup_problem(*store, old(self).plan) matches Some(expected) ==> result is Err
                && result->Err_0@ == expected,
            lacks_key(*store, old(self).plan) ==> result is Err && result->Err_0@ == missing_key(
                old(self).plan,
            ),
            is_ready(*store, old(self).plan) && rule_fits(old(self).plan, store.pairs())
                ==> result is Ok,
            result matches Err(error) ==> !(error@ is IterationLimit),
    {
        let plan = self.plan;
        let source = match store.state(plan.delta_input) {
            Ok(source) => source,
            Err(error) => {
                return Err(GenericExecutionError::Store(error));
            },
        };
        let right = match store.state(plan.right_input) {
            Ok(right) => right,
            Err(error) => {
                return Err(GenericExecutionError::Store(error));
            },
        };
        match store.state(plan.target) {
            Ok(_) => {},
            Err(error) => {
                return Err(GenericExecutionError::Store(error));
            },
        }
        let delta = match &source.delta {
            Some(delta) => delta,
            None => {
                return Err(
                    GenericExecutionError::Store(
                        RelationStoreError::NotRecursive(plan.delta_input),
                    ),
                );
            },
        };
        proof {
            store.lemma_wf(plan.delta_input);
            store.lemma_wf(plan.right_input);
            store.lemma_wf(plan.target);
        }
        match self.refresh_index(right, Ghost(*store)) {
            Ok(_) => {},
            Err(error) => {
                return Err(error);
            },
        }
        let delta_view = delta.view();
        let right_view = right.full.view();
        match &self.index {
            None => Ok(InputProvenance::Cpu),
            Some(cached) => {
                let outcome = join_auto(
                    delta_view,
                    right_view,
                    &cached.index,
                    plan.join,
                    &mut self.candidates,
                    false,
                    policies.join,
                );
                proof {
                    if is_ready(*store, plan) {
                        lemma_evaluated(*store, plan, delta_view, right_view, cached.index);
                    }
                }
                let join = match outcome {
                    Ok(join) => join,
                    Err(error) => {
                        return Err(GenericExecutionError::Execution(error));
                    },
                };
                let joined = self.candidates.output().view();
                let ghost joined_pairs = self.candidates@.output.pairs();
                proof {
                    recursion::lemma_buffer_pairs(self.candidates@.output, joined);
                    if is_ready(*store, plan) {
                        lemma_kept(joined, plan.distinct.columns@);
                    }
                    rounds::law_distinct_list(
                        rounds::kept_all(plan.distinct.columns@, joined_pairs),
                    );
                }
                match distinct_auto(
                    joined,
                    plan.distinct,
                    placement_provenance(join),
                    &mut self.distinct,
                    false,
                    policies.distinct,
                ) {
                    Ok(distinct) => {
                        self.pending = Some(PendingRule { join, distinct });
                        Ok(placement_provenance(distinct))
                    },
                    Err(error) => Err(GenericExecutionError::Execution(error)),
                }
            },
        }
    }

    /// Exchanges what was found with another relation.
    fn hand_over(&mut self, other: &mut RelationBuffer)
        requires
            old(self).wf(),
            old(other).wf(),
            old(other).contents().len() >= 2,
        ensures
            final(self).wf(),
            final(self).plan == old(self).plan,
            final(self).index == old(self).index,
            final(self).pending == old(self).pending,
            *final(other) == old(self).distinct.buffer(),
    {
        self.distinct.swap_output(other);
    }
}

/// Two columns of a binary relation are what is kept of its pairs.
proof fn lemma_kept(relation: RelationView<'_>, columns: Seq<u32>)
    requires
        relation.wf(),
        relation@.len() >= 2,
        columns.len() == 2,
        columns[0] < 2,
        columns[1] < 2,
    ensures
        execution::column_pairs(relation, columns) == rounds::kept_all(
            columns,
            recursion::view_pairs(relation),
        ),
{
    assert(execution::column_pairs(relation, columns) =~= rounds::kept_all(
        columns,
        recursion::view_pairs(relation),
    ));
}

/// What deriving pairs from stored relations finds is what the join of the rule yields.
proof fn lemma_evaluated(
    store: RelationStore,
    rule: RecursiveRulePlan,
    delta: RelationView<'_>,
    right: RelationView<'_>,
    index: U32RangeIndex,
)
    requires
        store.wf(),
        is_ready(store, rule),
        shows(delta, store.get(rule.delta_input)->0.delta->0),
        shows(right, store.get(rule.right_input)->0.full),
        delta.wf(),
        right.wf(),
        indexes_buffer(index, store.get(rule.right_input)->0.full, rule.join.right_key),
    ensures
        right.rows() <= u32::MAX ==> join::join_rows(
            delta,
            right,
            rule.join,
            |k: u32| index.postings(k),
            0,
            delta.rows() as int,
        ) == rounds::known_join(
            rule.join,
            store.pairs()(rule.delta_input).delta,
            store.pairs()(rule.right_input),
            delta.rows() as int,
        ),
        delta.rows() == store.pairs()(rule.delta_input).delta.len(),
        right.rows() == store.pairs()(rule.right_input).full.len(),
{
    store.lemma_wf(rule.delta_input);
    store.lemma_wf(rule.right_input);
    let source = store.get(rule.delta_input)->0;
    recursion::lemma_buffer_pairs(source.delta->0, delta);
    assert(recursion::view_pairs(delta).len() == delta.rows());
    if right.rows() <= u32::MAX {
        lemma_joined(store.get(rule.right_input)->0, rule, delta, right, index, delta.rows() as int);
    }
}

/// A column of a stored relation is the one that its rows have.
proof fn lemma_column(relation: StoredRelation, column: u32)
    requires
        relation.wf(),
        relation.has_column(column),
    ensures
        rounds::known_column(relation.pairs(), column) == relation.full.contents()[column as int].take(
            relation.full.rows() as int,
        ),
{
    let full = relation.full;
    assert(full.contents()[column as int].len() == full.room());
    if column < 2 {
        assert(rounds::known_column(relation.pairs(), column) =~= full.contents()[column as int].take(
            full.rows() as int,
        ));
    } else {
        assert(further_columns(full)[column - 2] == full.contents()[column as int].take(
            full.rows() as int,
        ));
    }
}

/// Joining through an index of the right relation joins with its rows.
proof fn lemma_joined(
    relation: StoredRelation,
    rule: RecursiveRulePlan,
    delta: RelationView<'_>,
    right: RelationView<'_>,
    index: U32RangeIndex,
    count: int,
)
    requires
        relation.wf(),
        shows(right, relation.full),
        delta.wf(),
        delta@.len() >= 2,
        rule.join.left_key < 2,
        relation.has_column(rule.join.right_key),
        takes_column(rule.join.output@[0], relation),
        takes_column(rule.join.output@[1], relation),
        indexes_buffer(index, relation.full, rule.join.right_key),
        right.rows() <= u32::MAX,
        0 <= count <= delta.rows(),
    ensures
        join::join_rows(delta, right, rule.join, |k: u32| index.postings(k), 0, count)
            == rounds::known_join(
            rule.join,
            recursion::view_pairs(delta),
            relation.pairs(),
            count,
        ),
    decreases count,
{
    let plan = rule.join;
    let list = |k: u32| index.postings(k);
    if count > 0 {
        lemma_joined(relation, rule, delta, right, index, count - 1);
        let i = count - 1;
        let l = recursion::view_pairs(delta);
        let r = relation.pairs();
        assert(delta@[0].len() >= delta.rows() && delta@[1].len() >= delta.rows());
        lemma_column(relation, plan.right_key);
        let keys = rounds::known_column(r, plan.right_key);
        let key = delta@[plan.left_key as int][i];
        assert(rounds::column_of(l[i], plan.left_key) == key);
        let rows = index.postings(key);
        assert(rows == index::matching_rows(keys, key));
        index::lemma_matching_rows(keys, key);
        assert forall|j: int| 0 <= j < rows.len() implies (#[trigger] rows[j]) < right.rows() by {
            assert(rows.contains(rows[j]));
        }
        assert forall|o: int, j: int| 0 <= o < 2 && 0 <= j < rows.len() implies join::projected(
            delta,
            right,
            #[trigger] plan.output@[o],
            i,
            (#[trigger] rows[j]) as int,
        ) == rounds::read_value(plan.output@[o], l[i], r, rows[j] as int) by {
            if plan.output@[o].input is Right {
                lemma_column(relation, plan.output@[o].column);
            }
        }
        assert(join::row_join(delta, right, plan, list, i) =~= rounds::row_yield(plan, l, r, i));
    }
}

/// What the rules of a relation found in a round, before it is applied.
#[derive(Debug, Clone, Copy)]
struct PendingTarget {
    anti_join: Placement,
    newt_provenance: InputProvenance,
}

/// A derived relation with its rules and buffers. What the rules join is gathered before what is
/// known is subtracted from it; subtracting and uniting follow the plan of the first rule.
struct TargetRuntime {
    id: RelationId,
    rules: Vec<RuleRuntime>,
    gathered: RelationBuffer,
    merged: UnionWorkspace,
    newt: AntiJoinWorkspace,
    union: UnionWorkspace,
    pending: Option<PendingTarget>,
}

/// Whether every rule of a relation finds binary relations, with the relation in ascending order.
pub open spec fn all_ready(store: RelationStore, rules: Seq<RecursiveRulePlan>) -> bool {
    forall|i: int| 0 <= i < rules.len() ==> is_ready(store, #[trigger] rules[i])
}

/// The new pairs of a relation, from the rules that derive it.
pub open spec fn new_from(
    own: Seq<RecursiveRulePlan>,
    id: RelationId,
    relations: rounds::Relations,
) -> Seq<pairs::Pair> {
    let candidates = rounds::distinct_list(rounds::contributed(own, relations));
    pairs::difference(candidates, relations(id).full, 0, candidates.len() as int)
}

/// Whether the sizes of a relation and its rules in a round stay within bounds.
pub open spec fn own_fits(
    own: Seq<RecursiveRulePlan>,
    id: RelationId,
    relations: rounds::Relations,
) -> bool {
    let all = rounds::distinct_list(rounds::contributed(own, relations));
    let full = relations(id).full;
    let new = new_from(own, id, relations);
    &&& forall|i: int| 0 <= i < own.len() ==> rule_fits(#[trigger] own[i], relations)
    &&& gathering_fits(own, relations)
    &&& all.len() <= u32::MAX
    &&& full.len() <= u32::MAX
    &&& new.len() <= u32::MAX
    &&& full.len() + new.len() <= usize::MAX
    &&& storage::size_fits::<u32>(storage::grown(all.len()))
    &&& storage::size_fits::<u32>(storage::grown(full.len() + new.len()))
}

/// Whether some first rules of a relation join without failing.
pub open spec fn reaches(store: RelationStore, own: Seq<RecursiveRulePlan>, count: int) -> bool {
    &&& forall|j: int|
        0 <= j < count ==> is_ready(store, #[trigger] own[j]) && rule_fits(own[j], store.pairs())
    &&& gathering_fits(own.take(count), store.pairs())
}

/// Whether a rule of a relation is the first of the relation's to fail, for want of the column that
/// it joins on.
pub open spec fn stops_at(store: RelationStore, own: Seq<RecursiveRulePlan>, k: int) -> bool {
    &&& 0 <= k < own.len()
    &&& lacks_key(store, own[k])
    &&& reaches(store, own, k)
}

/// Whether the first rule of a round that fails is the `k`th of the `t`th relation, for want of the
/// column that it joins on.
pub open spec fn round_stops_at(
    store: RelationStore,
    rules: Seq<RecursiveRulePlan>,
    t: int,
    k: int,
) -> bool {
    let names = rounds::targets_of(rules);
    &&& 0 <= t < names.len()
    &&& stops_at(store, rounds::rules_for(rules, names[t]), k)
    &&& forall|j: int|
        0 <= j < t ==> {
            let own = rounds::rules_for(rules, #[trigger] names[j]);
            all_ready(store, own) && own_fits(own, names[j], store.pairs())
        }
}

/// Uniting what one more rule joins with what is gathered.
proof fn lemma_gathered(
    earlier: Seq<pairs::Pair>,
    own: Seq<pairs::Pair>,
    result: Seq<pairs::Pair>,
)
    requires
        pairs::is_union(result, rounds::distinct_list(earlier), rounds::distinct_list(own)),
    ensures
        result == rounds::distinct_list(earlier + own),
{
    let a = rounds::distinct_list(earlier);
    let b = rounds::distinct_list(own);
    rounds::law_distinct_list(earlier);
    rounds::law_distinct_list(own);
    rounds::law_distinct_list(earlier + own);
    assert forall|p: pairs::Pair|
        #![trigger result.contains(p)]
        #![trigger (earlier + own).contains(p)]
        result.contains(p) <==> (earlier + own).contains(p) by {
        assert(result.contains(p) <==> (a + b).contains(p));
        pairs::lemma_sum_contains(a, b, p);
        pairs::lemma_sum_contains(earlier, own, p);
        assert(a.contains(p) <==> earlier.contains(p));
        assert(b.contains(p) <==> own.contains(p));
    }
    assert(pairs::is_distinct(result, earlier + own));
}

/// The first rule alone gathers what it joins.
proof fn lemma_gathered_first(rule: RecursiveRulePlan, relations: rounds::Relations)
    ensures
        rounds::contributed(seq![rule], relations) == rounds::joined_pairs(rule, relations),
{
    reveal_with_fuel(rounds::contributed, 2);
    assert(seq![rule].drop_last() =~= Seq::empty());
    assert(rounds::contributed(seq![rule], relations) =~= rounds::joined_pairs(rule, relations));
}

proof fn lemma_gathering_prefix(
    rules: Seq<RecursiveRulePlan>,
    relations: rounds::Relations,
    count: int,
)
    requires
        gathering_fits(rules, relations),
        0 <= count <= rules.len(),
    ensures
        gathering_fits(rules.take(count), relations),
    decreases rules.len() - count,
{
    if count < rules.len() {
        lemma_gathering_prefix(rules, relations, count + 1);
        assert(rules.take(count + 1).drop_last() =~= rules.take(count));
    } else {
        assert(rules.take(count) =~= rules);
    }
}

/// Where subtracting what is known from what is gathered runs without a device.
spec fn anti_placement(policies: IterationPolicies, rows: nat) -> Placement {
    recursion::derive_placements(policies, 0, 0, rows).2
}

impl TargetRuntime {
    /// The rules of the relation.
    spec fn plans(&self) -> Seq<RecursiveRulePlan> {
        Seq::new(self.rules@.len(), |i: int| self.rules@[i].plan)
    }

    spec fn wf(&self) -> bool {
        &&& self.rules@.len() > 0
        &&& forall|i: int|
            0 <= i < self.rules@.len() ==> (#[trigger] self.rules@[i]).wf()
                && self.rules@[i].plan.target == self.id
        &&& self.gathered.wf()
        &&& self.gathered.contents().len() >= 2
        &&& self.merged.wf()
        &&& self.newt.wf()
        &&& self.union.wf()
    }

    /// Whether the indexes that will be used again are ones of the relations as they are.
    spec fn cache_valid(&self, store: RelationStore) -> bool {
        forall|i: int|
            0 <= i < self.rules@.len() ==> (#[trigger] self.rules@[i]).cache_valid(store)
    }

    /// Whether the indexes are ones of the relations as they are.
    spec fn cache_current(&self, store: RelationStore) -> bool {
        forall|i: int|
            0 <= i < self.rules@.len() ==> (#[trigger] self.rules@[i]).cache_current(store)
    }

    /// Whether every rule and the relation have found what they add.
    spec fn is_pending(&self) -> bool {
        &&& self.pending is Some
        &&& forall|i: int|
            0 <= i < self.rules@.len() ==> (#[trigger] self.rules@[i]).pending is Some
    }

    /// Whether what was found is what a round adds, and was found where the policies say.
    spec fn has_found(&self, policies: IterationPolicies, relations: rounds::Relations) -> bool {
        let all = rounds::distinct_list(rounds::contributed(self.plans(), relations));
        &&& self.newt.buffer().pairs() == new_from(self.plans(), self.id, relations)
        &&& pairs::pairs_ascending(self.newt.buffer().pairs())
        &&& self.pending == Some(
            PendingTarget {
                anti_join: anti_placement(policies, all.len()),
                newt_provenance: InputProvenance::Cpu,
            },
        )
        &&& forall|i: int|
            0 <= i < self.rules@.len() ==> (#[trigger] self.rules@[i]).pending == Some(
                PendingRule {
                    join: rule_placements(policies, self.rules@[i].plan, relations).0,
                    distinct: rule_placements(policies, self.rules@[i].plan, relations).1,
                },
            )
    }

    fn new(runtime: RuleRuntime) -> (result: Result<Self, storage::Error>)
        requires
            runtime.wf(),
        ensures
            result is Ok,
            result->Ok_0.wf(),
            result->Ok_0.id == runtime.plan.target,
            result->Ok_0.rules@ == seq![runtime],
            result->Ok_0.pending is None,
    {
        let id = runtime.plan.target;
        let ghost first = runtime;
        let distinct = match DistinctWorkspace::new() {
            Ok(distinct) => distinct,
            Err(error) => {
                return Err(error);
            },
        };
        let merged = match UnionWorkspace::new() {
            Ok(merged) => merged,
            Err(error) => {
                return Err(error);
            },
        };
        let newt = match AntiJoinWorkspace::new() {
            Ok(newt) => newt,
            Err(error) => {
                return Err(error);
            },
        };
        let union = match UnionWorkspace::new() {
            Ok(union) => union,
            Err(error) => {
                return Err(error);
            },
        };
        let gathered = distinct.into_output();
        let mut rules: Vec<RuleRuntime> = Vec::new();
        rules.push(runtime);
        assert(rules@ =~= seq![first]);
        Ok(TargetRuntime { id, rules, gathered, merged, newt, union, pending: None })
    }

    /// Adds a rule of the relation.
    fn add_rule(&mut self, runtime: RuleRuntime)
        requires
            old(self).wf(),
            runtime.wf(),
            runtime.plan.target == old(self).id,
        ensures
            final(self).wf(),
            final(self).id == old(self).id,
            final(self).rules@ == old(self).rules@.push(runtime),
    {
        self.rules.push(runtime);
    }

    /// Lets one rule join, and unites what it joined with what is gathered.
    fn gather(
        &mut self,
        i: usize,
        store: &RelationStore,
        policies: IterationPolicies,
        provenance: InputProvenance,
    ) -> (result: Result<InputProvenance, GenericExecutionError>)
        requires
            old(self).wf(),
            store.wf(),
            i < old(self).rules@.len(),
            old(self).cache_valid(*store),
            provenance == InputProvenance::Cpu,
        ensures
            final(self).wf(),
            final(self).id == old(self).id,
            final(self).plans() == old(self).plans(),
            final(self).rules@.len() == old(self).rules@.len(),
            final(self).cache_valid(*store),
            final(self).newt == old(self).newt,
            forall|j: int|
                0 <= j < old(self).rules@.len() && j != i ==> #[trigger] final(self).rules@[j]
                    == old(self).rules@[j],
            result is Ok ==> {
                &&& result->Ok_0 == InputProvenance::Cpu
                &&& final(self).rules@[i as int].pending is Some
                &&& final(self).rules@[i as int].cache_current(*store)
                &&& is_numbered(*store, old(self).plans()[i as int])
            },
            lacks_key(*store, old(self).plans()[i as int]) ==> result is Err && result->Err_0@
                == missing_key(old(self).plans()[i as int]),
            result is Ok && is_ready(*store, old(self).plans()[i as int]) && (i > 0 ==> old(
                self,
            ).gathered.pairs() == rounds::distinct_list(
                rounds::contributed(old(self).plans().take(i as int), store.pairs()),
            )) ==> {
                let plan = old(self).plans()[i as int];
                let places = rule_placements(policies, plan, store.pairs());
                &&& final(self).gathered.pairs() == rounds::distinct_list(
                    rounds::contributed(old(self).plans().take(i + 1), store.pairs()),
                )
                &&& final(self).rules@[i as int].pending == Some(
                    PendingRule { join: places.0, distinct: places.1 },
                )
            },
            is_ready(*store, old(self).plans()[i as int]) && (i > 0 ==> old(
                self,
            ).gathered.pairs() == rounds::distinct_list(
                rounds::contributed(old(self).plans().take(i as int), store.pairs()),
            )) && rule_fits(old(self).plans()[i as int], store.pairs()) && gathering_fits(
                old(self).plans().take(i + 1),
                store.pairs(),
            ) ==> result is Ok,
            result matches Err(error) ==> !(error@ is IterationLimit),
    {
        let ghost plans = self.plans();
        let ghost before = *self;
        let ghost plan = plans[i as int];
        let ghost relations = store.pairs();
        proof {
            assert(plan == self.rules@[i as int].plan);
            assert(plans.take(i + 1).drop_last() =~= plans.take(i as int));
            assert(plans.take(i + 1).last() == plan);
            rounds::law_distinct_list(rounds::contributed(plans.take(i as int), relations));
            rounds::law_distinct_list(rounds::joined_pairs(plan, relations));
        }
        let outcome = self.rules[i].evaluate(store, policies);
        proof {
            assert forall|j: int| 0 <= j < self.rules@.len() && j != i implies #[trigger] self.rules@[j]
                == before.rules@[j] by {}
            assert(self.plans() =~= plans);
        }
        let found = match outcome {
            Ok(found) => found,
            Err(error) => {
                return Err(error);
            },
        };
        if i == 0 {
            let ghost middle = *self;
            self.rules[0].hand_over(&mut self.gathered);
            proof {
                assert forall|j: int| 0 <= j < self.rules@.len() && j != i implies #[trigger] self.rules@[j]
                    == before.rules@[j] by {
                    assert(self.rules@[j] == middle.rules@[j]);
                }
                assert(self.plans() =~= plans);
                assert(plans.take(1) =~= seq![plan]);
                lemma_gathered_first(plan, relations);
                assert(self.rules@[0].cache_valid(*store));
                assert(self.rules@[0].cache_current(*store));
            }
            return Ok(found);
        }
        let known = self.gathered.view();
        let own = self.rules[i].distinct.output().view();
        let ghost own_buffer = self.rules@[i as int].distinct.buffer();
        let outcome = union_auto(
            known,
            own,
            union_plan(),
            combine_provenance(provenance, found),
            &mut self.merged,
            false,
            policies.union,
        );
        proof {
            recursion::lemma_buffer_pairs(before.gathered, known);
            recursion::lemma_buffer_pairs(own_buffer, own);
            recursion::lemma_ascending_is_sorted(
                rounds::distinct_list(rounds::contributed(plans.take(i as int), relations)),
            );
            recursion::lemma_ascending_is_sorted(
                rounds::distinct_list(rounds::joined_pairs(plan, relations)),
            );
            assert(before.gathered.pairs().len() == before.gathered.rows());
            assert(own_buffer.pairs().len() == own_buffer.rows());
        }
        match outcome {
            Ok(union) => {
                proof {
                    if is_ready(*store, plan) && before.gathered.pairs() == rounds::distinct_list(
                        rounds::contributed(plans.take(i as int), relations),
                    ) {
                        lemma_gathered(
                            rounds::contributed(plans.take(i as int), relations),
                            rounds::joined_pairs(plan, relations),
                            self.merged.buffer().pairs(),
                        );
                    }
                }
                self.merged.swap_output(&mut self.gathered);
                proof {
                    assert(self.plans() =~= plans);
                }
                Ok(placement_provenance(union))
            },
            Err(error) => Err(GenericExecutionError::Execution(error)),
        }
    }

    /// Finds the pairs that the rules add to the relation in this round.
    fn evaluate(&mut self, store: &RelationStore, policies: IterationPolicies) -> (result: Result<
        (),
        GenericExecutionError,
    >)
        requires
            old(self).wf(),
            store.wf(),
            old(self).cache_valid(*store),
        ensures
            final(self).wf(),
            final(self).id == old(self).id,
            final(self).plans() == old(self).plans(),
            final(self).cache_valid(*store),
            result is Ok ==> final(self).is_pending() && final(self).cache_current(*store),
            result is Ok && all_ready(*store, old(self).plans()) ==> final(self).has_found(
                policies,
                store.pairs(),
            ),
            result is Ok ==> forall|j: int|
                0 <= j < old(self).plans().len() ==> is_numbered(
                    *store,
                    #[trigger] old(self).plans()[j],
                ),
            forall|k: int| #[trigger]
                stops_at(*store, old(self).plans(), k) ==> result is Err && result->Err_0@
                    == missing_key(old(self).plans()[k]),
            all_ready(*store, old(self).plans()) && own_fits(
                old(self).plans(),
                old(self).id,
                store.pairs(),
            ) ==> result is Ok,
            result matches Err(error) ==> !(error@ is IterationLimit),
    {
        let ghost plans = self.plans();
        let ghost id = self.id;
        let ghost relations = store.pairs();
        let ghost ready = all_ready(*store, plans);
        let ghost fits = own_fits(plans, id, relations);
        let mut provenance = InputProvenance::Cpu;
        let mut i: usize = 0;
        while i < self.rules.len()
            invariant
                i <= self.rules@.len(),
                self.wf(),
                store.wf(),
                self.id == id,
                old(self).id == id,
                self.plans() == plans,
                old(self).plans() == plans,
                plans.len() == self.rules@.len(),
                relations == store.pairs(),
                ready == all_ready(*store, plans),
                fits == own_fits(plans, id, relations),
                self.cache_valid(*store),
                provenance == InputProvenance::Cpu,
                forall|j: int|
                    0 <= j < i ==> (#[trigger] self.rules@[j]).pending is Some
                        && self.rules@[j].cache_current(*store),
                forall|j: int| 0 <= j < i ==> is_numbered(*store, #[trigger] plans[j]),
                forall|k: int| #[trigger] stops_at(*store, plans, k) ==> i <= k,
                (forall|j: int| 0 <= j < i ==> is_ready(*store, #[trigger] plans[j])) && i > 0
                    ==> self.gathered.pairs() == rounds::distinct_list(
                    rounds::contributed(plans.take(i as int), relations),
                ),
                ready ==> forall|j: int|
                    0 <= j < i ==> (#[trigger] self.rules@[j]).pending == Some(
                        PendingRule {
                            join: rule_placements(policies, plans[j], relations).0,
                            distinct: rule_placements(policies, plans[j], relations).1,
                        },
                    ),
            decreases self.rules@.len() - i,
        {
            let ghost before = *self;
            proof {
                assert forall|k: int| #[trigger] stops_at(*store, plans, k) && i < k implies {
                    &&& is_ready(*store, plans[i as int])
                    &&& rule_fits(plans[i as int], relations)
                    &&& gathering_fits(plans.take(i + 1), relations)
                } by {
                    lemma_gathering_prefix(plans.take(k), relations, i + 1);
                    assert(plans.take(k).take(i + 1) =~= plans.take(i + 1));
                }
                if ready {
                    assert(is_ready(*store, plans[i as int]));
                    if fits {
                        lemma_gathering_prefix(plans, relations, i + 1);
                        assert(rule_fits(plans[i as int], relations));
                    }
                }
            }
            match self.gather(i, store, policies, provenance) {
                Ok(found) => {
                    provenance = found;
                },
                Err(error) => {
                    return Err(error);
                },
            }
            proof {
                assert forall|j: int| 0 <= j < i implies #[trigger] self.rules@[j]
                    == before.rules@[j] by {}
            }
            i += 1;
        }
        proof {
            assert(plans.take(plans.len() as int) =~= plans);
            store.lemma_wf(id);
        }
        let target = match store.state(self.id) {
            Ok(target) => target,
            Err(error) => {
                return Err(GenericExecutionError::Store(error));
            },
        };
        let gathered = self.gathered.view();
        let known = target.full.view();
        let ghost all = rounds::distinct_list(rounds::contributed(plans, relations));
        let ghost gathered_pairs = self.gathered.pairs();
        proof {
            recursion::lemma_buffer_pairs(self.gathered, gathered);
            assert(gathered_pairs.len() == self.gathered.rows());
            rounds::law_distinct_list(rounds::contributed(plans, relations));
            recursion::lemma_ascending_is_sorted(all);
            if ready {
                assert(is_ready(*store, plans[0]));
                assert(self.rules@[0].plan == plans[0]);
                recursion::lemma_buffer_pairs(target.full, known);
                recursion::lemma_ascending_is_sorted(target.full.pairs());
                rounds::lemma_difference(all, relations(id).full, all.len() as int);
            }
        }
        match anti_join_auto(
            gathered,
            known,
            self.rules[0].plan.anti_join,
            combine_provenance(provenance, target.full_provenance),
            &mut self.newt,
            false,
            policies.anti_join,
        ) {
            Ok(anti_join) => {
                self.pending =
                Some(
                    PendingTarget { anti_join, newt_provenance: placement_provenance(anti_join) },
                );
                proof {
                    assert(self.plans() =~= plans);
                }
                Ok(())
            },
            Err(error) => {
                proof {
                    assert(self.plans() =~= plans);
                }
                Err(GenericExecutionError::Execution(error))
            },
        }
    }

    /// Adds the pairs that were found to the relation, as its newest ones.
    fn apply(&mut self, store: &mut RelationStore, policies: IterationPolicies) -> (result: Result<
        Vec<(RelationId, IterationPlacements)>,
        GenericExecutionError,
    >)
        requires
            old(self).wf(),
            old(store).wf(),
            old(self).is_pending(),
            may_unite(old(store).get(old(self).id), old(self).plans()[0]),
        ensures
            final(self).wf(),
            final(store).wf(),
            final(self).id == old(self).id,
            final(self).rules@ == old(self).rules@,
            forall|other: RelationId|
                other != old(self).id ==> #[trigger] final(store).get(other) == old(store).get(
                    other,
                ),
            result is Err ==> final(store).get(old(self).id) == old(store).get(old(self).id),
            result matches Ok(places) ==> {
                let before = old(store).get(old(self).id);
                let after = final(store).get(old(self).id);
                let new = old(self).newt.buffer().pairs();
                &&& before is Some && before->0.delta is Some
                &&& after is Some && after->0.delta is Some
                &&& after->0.full.contents().len() >= 2
                &&& after->0.version != before->0.version
                &&& after->0.full_provenance == InputProvenance::Cpu
                &&& after->0.delta_provenance == old(self).pending->0.newt_provenance
                &&& after->0.delta->0.pairs() == new
                &&& after->0.delta->0.rows() == old(self).newt.buffer().rows()
                &&& places@ == Seq::new(
                    old(self).rules@.len(),
                    |k: int|
                        (
                            old(self).id,
                            IterationPlacements {
                                join: old(self).rules@[k].pending->0.join,
                                distinct: old(self).rules@[k].pending->0.distinct,
                                anti_join: old(self).pending->0.anti_join,
                                union: recursion::update_placement(
                                    policies,
                                    before->0.full.rows(),
                                    old(self).newt.buffer().rows(),
                                ),
                            },
                        ),
                )
                &&& updates_in_order(old(self).plans()[0]) && pairs::pairs_ascending(
                    before->0.full.pairs(),
                ) && pairs::pairs_ascending(new) ==> after->0.full.pairs() == rounds::with_new(
                    before->0.full.pairs(),
                    new,
                )
            },
            ({
                let before = old(store).get(old(self).id);
                let new = old(self).newt.buffer();
                &&& before is Some && before->0.delta is Some && before->0.full.contents().len()
                    >= 2 && updates_in_order(old(self).plans()[0]) && before->0.full.rows()
                    <= u32::MAX && new.rows() <= u32::MAX && before->0.full.rows() + new.rows()
                    <= usize::MAX && storage::size_fits::<u32>(
                    storage::grown(before->0.full.rows() + new.rows()),
                ) && old(self).pending->0.newt_provenance == InputProvenance::Cpu ==> result is Ok
            }),
            result matches Err(error) ==> !(error@ is IterationLimit),
    {
        let id = self.id;
        let plan = self.rules[0].plan;
        let mut target = match store.take(id) {
            Ok(target) => target,
            Err(error) => {
                return Err(GenericExecutionError::Store(error));
            },
        };
        let ghost before = target;
        let pending = match self.pending.take() {
            Some(pending) => pending,
            None => {
                store.put_back(id, target);
                return Err(GenericExecutionError::Store(RelationStoreError::NotRecursive(id)));
            },
        };
        let union_provenance = combine_provenance(
            target.full_provenance,
            pending.newt_provenance,
        );
        let known = target.full.view();
        let newest = self.newt.output().view();
        let ghost new = self.newt.buffer();
        let outcome = union_auto(
            known,
            newest,
            plan.union,
            union_provenance,
            &mut self.union,
            false,
            policies.union,
        );
        proof {
            if target.full.contents().len() >= 2 {
                recursion::lemma_buffer_pairs(target.full, known);
            }
            recursion::lemma_buffer_pairs(new, newest);
            if pairs::pairs_ascending(before.full.pairs()) {
                recursion::lemma_ascending_is_sorted(before.full.pairs());
            }
            if pairs::pairs_ascending(new.pairs()) {
                recursion::lemma_ascending_is_sorted(new.pairs());
            }
            rounds::law_distinct_list(before.full.pairs() + new.pairs());
        }
        let union = match outcome {
            Ok(union) => union,
            Err(error) => {
                store.put_back(id, target);
                return Err(GenericExecutionError::Execution(error));
            },
        };
        let places = self.places(pending, union);
        let mut delta_slot: Option<RelationBuffer> = target.delta.take();
        let mut spare_slot: Option<RelationBuffer> = target.spare.take();
        match (delta_slot, spare_slot) {
            (Some(delta), Some(mut spare)) => {
                self.newt.swap_output(&mut spare);
                self.union.swap_output(&mut target.full);
                target.delta = Some(spare);
                target.spare = Some(delta);
                target.delta_provenance = pending.newt_provenance;
                target.full_provenance = placement_provenance(union);
                let version: u64 = target.version;
                target.version = version.wrapping_add(1);
                store.put_back(id, target);
                Ok(places)
            },
            (delta, spare) => {
                target.delta = delta;
                target.spare = spare;
                store.put_back(id, target);
                Err(GenericExecutionError::Store(RelationStoreError::NotRecursive(id)))
            },
        }
    }

    /// Where the operators of every rule ran.
    fn places(&self, pending: PendingTarget, union: Placement) -> (places: Vec<
        (RelationId, IterationPlacements),
    >)
        requires
            forall|i: int|
                0 <= i < self.rules@.len() ==> (#[trigger] self.rules@[i]).pending is Some,
        ensures
            places@ == Seq::new(
                self.rules@.len(),
                |k: int|
                    (
                        self.id,
                        IterationPlacements {
                            join: self.rules@[k].pending->0.join,
                            distinct: self.rules@[k].pending->0.distinct,
                            anti_join: pending.anti_join,
                            union,
                        },
                    ),
            ),
    {
        let mut places: Vec<(RelationId, IterationPlacements)> = Vec::new();
        let mut k: usize = 0;
        while k < self.rules.len()
            invariant
                k <= self.rules@.len(),
                forall|i: int|
                    0 <= i < self.rules@.len() ==> (#[trigger] self.rules@[i]).pending is Some,
                places@.len() == k,
                forall|j: int|
                    0 <= j < k ==> #[trigger] places@[j] == (
                        self.id,
                        IterationPlacements {
                            join: self.rules@[j].pending->0.join,
                            distinct: self.rules@[j].pending->0.distinct,
                            anti_join: pending.anti_join,
                            union,
                        },
                    ),
            decreases self.rules@.len() - k,
        {
            assert(self.rules@[k as int].pending is Some);
            if let Some(found) = self.rules[k].pending {
                places.push(
                    (
                        self.id,
                        IterationPlacements {
                            join: found.join,
                            distinct: found.distinct,
                            anti_join: pending.anti_join,
                            union,
                        },
                    ),
                );
            }
            k += 1;
        }
        places
    }
}

/// Whether the sizes of every rule and relation in a round stay within bounds.
pub open spec fn round_fits(rules: Seq<RecursiveRulePlan>, relations: rounds::Relations) -> bool {
    &&& forall|i: int| 0 <= i < rules.len() ==> rule_fits(#[trigger] rules[i], relations)
    &&& forall|id: RelationId| #[trigger]
        rounds::has_rule(rules, id) ==> target_fits(rules, id, relations)
}

/// Whether the sizes of some first rounds stay within bounds.
#[verifier::opaque]
pub open spec fn rounds_fit(
    rules: Seq<RecursiveRulePlan>,
    relations: rounds::Relations,
    count: nat,
) -> bool {
    forall|k: nat|
        k < count ==> round_fits(rules, #[trigger] rounds::after_rounds(rules, relations, k))
}

/// Whether every one of some first rounds starts with new pairs.
#[verifier::opaque]
pub open spec fn goes_on(
    ids: Seq<RelationId>,
    rules: Seq<RecursiveRulePlan>,
    relations: rounds::Relations,
    count: nat,
) -> bool {
    forall|k: nat|
        k < count ==> !rounds::is_settled(ids, #[trigger] rounds::after_rounds(rules, relations, k))
}

/// Whether a component settles within some rounds, and those rounds stay within bounds.
#[verifier::opaque]
pub open spec fn succeeds(
    ids: Seq<RelationId>,
    rules: Seq<RecursiveRulePlan>,
    relations: rounds::Relations,
    limit: nat,
) -> bool {
    exists|count: nat|
        count <= limit && rounds_fit(rules, relations, count) && rounds::is_settled(
            ids,
            #[trigger] rounds::after_rounds(rules, relations, count),
        )
}

/// Whether a component has new pairs after some rounds, which stay within bounds.
#[verifier::opaque]
pub open spec fn exhausts(
    ids: Seq<RelationId>,
    rules: Seq<RecursiveRulePlan>,
    relations: rounds::Relations,
    limit: nat,
) -> bool {
    rounds_fit(rules, relations, limit) && goes_on(ids, rules, relations, limit + 1)
}

/// A component that goes on beyond the limit does not succeed.
proof fn lemma_goes_on_fails(
    ids: Seq<RelationId>,
    rules: Seq<RecursiveRulePlan>,
    relations: rounds::Relations,
    limit: nat,
)
    requires
        goes_on(ids, rules, relations, limit + 1),
    ensures
        !succeeds(ids, rules, relations, limit),
{
    reveal(goes_on);
    reveal(succeeds);
}

/// A component that goes on into a round that is out of bounds neither succeeds nor uses up its
/// rounds.
proof fn lemma_unfit_fails(
    ids: Seq<RelationId>,
    rules: Seq<RecursiveRulePlan>,
    relations: rounds::Relations,
    count: nat,
    limit: nat,
)
    requires
        count < limit,
        goes_on(ids, rules, relations, count + 1),
        !round_fits(rules, rounds::after_rounds(rules, relations, count)),
    ensures
        !succeeds(ids, rules, relations, limit),
        !exhausts(ids, rules, relations, limit),
{
    reveal(goes_on);
    reveal(succeeds);
    reveal(exhausts);
    reveal(rounds_fit);
}

/// A component that settles within the limit does not use up its rounds.
proof fn lemma_settled_in_time(
    ids: Seq<RelationId>,
    rules: Seq<RecursiveRulePlan>,
    relations: rounds::Relations,
    count: nat,
    limit: nat,
)
    requires
        count <= limit,
        rounds::is_settled(ids, rounds::after_rounds(rules, relations, count)),
    ensures
        !exhausts(ids, rules, relations, limit),
{
    reveal(goes_on);
    reveal(exhausts);
}

/// How many pairs a round adds to some first relations.
pub open spec fn new_count(
    rules: Seq<RecursiveRulePlan>,
    relations: rounds::Relations,
    count: int,
) -> nat
    decreases count,
{
    if count <= 0 {
        0
    } else {
        new_count(rules, relations, count - 1) + rounds::new_pairs(
            rules,
            rounds::targets_of(rules)[count - 1],
            relations,
        ).len()
    }
}

/// How many pairs some rounds add.
pub open spec fn total_count(
    rules: Seq<RecursiveRulePlan>,
    relations: rounds::Relations,
    count: nat,
) -> nat
    decreases count,
{
    if count == 0 {
        0
    } else {
        total_count(rules, relations, (count - 1) as nat) + new_count(
            rules,
            rounds::after_rounds(rules, relations, (count - 1) as nat),
            rounds::targets_of(rules).len() as int,
        )
    }
}

/// Where the operators of some first relations run in a round without a device: relation by
/// relation, rule by rule.
pub open spec fn first_placements(
    policies: IterationPolicies,
    rules: Seq<RecursiveRulePlan>,
    relations: rounds::Relations,
    count: int,
) -> Seq<(RelationId, IterationPlacements)>
    decreases count,
{
    if count <= 0 {
        Seq::empty()
    } else {
        first_placements(policies, rules, relations, count - 1) + placements_for(
            policies,
            rules,
            rounds::targets_of(rules)[count - 1],
            relations,
        )
    }
}

/// Where the operators of a round run without a device.
pub open spec fn round_placements(
    policies: IterationPolicies,
    rules: Seq<RecursiveRulePlan>,
    relations: rounds::Relations,
) -> Seq<(RelationId, IterationPlacements)> {
    first_placements(policies, rules, relations, rounds::targets_of(rules).len() as int)
}

/// Why a relation has no newest rows, if so.
pub open spec fn delta_problem(store: RelationStore, id: RelationId) -> Option<
    RelationStoreError,
> {
    match store.get(id) {
        None => Some(RelationStoreError::Missing(id)),
        Some(relation) => if relation.delta is None {
            Some(RelationStoreError::NotRecursive(id))
        } else {
            None
        },
    }
}

/// How many newest rows some relations have.
pub open spec fn delta_count(store: RelationStore, ids: Seq<RelationId>, count: int) -> nat
    decreases count,
{
    if count <= 0 {
        0
    } else {
        delta_count(store, ids, count - 1) + store.get(ids[count - 1])->0.delta->0.rows()
    }
}

/// Which relations there are, and whether each has newest rows.
pub type RelationKinds = spec_fn(RelationId) -> Option<bool>;

/// Why a relation has no newest rows, if so.
pub open spec fn kind_problem(kinds: RelationKinds, id: RelationId) -> Option<RelationStoreError> {
    match kinds(id) {
        None => Some(RelationStoreError::Missing(id)),
        Some(recursive) => if recursive {
            None
        } else {
            Some(RelationStoreError::NotRecursive(id))
        },
    }
}

/// The first problem of some relations.
pub open spec fn first_problem(kinds: RelationKinds, ids: Seq<RelationId>) -> Option<
    RelationStoreError,
>
    decreases ids.len(),
{
    if ids.len() == 0 {
        None
    } else {
        match first_problem(kinds, ids.drop_last()) {
            Some(problem) => Some(problem),
            None => kind_problem(kinds, ids.last()),
        }
    }
}

/// What is wrong with a rule of a component, if so.
pub open spec fn rule_problem(
    kinds: RelationKinds,
    ids: Seq<RelationId>,
    rules: Seq<RecursiveRulePlan>,
    i: int,
) -> Option<GenericErrorView> {
    let rule = rules[i];
    if kinds(rule.delta_input) is None {
        Some(GenericErrorView::Store(RelationStoreError::Missing(rule.delta_input)))
    } else if kinds(rule.right_input) is None {
        Some(GenericErrorView::Store(RelationStoreError::Missing(rule.right_input)))
    } else if !ids.contains(rule.target) {
        Some(GenericErrorView::TargetOutsideScc(rule.target))
    } else {
        None
    }
}

/// The first problem of some first rules.
pub open spec fn first_rule_problem(
    kinds: RelationKinds,
    ids: Seq<RelationId>,
    rules: Seq<RecursiveRulePlan>,
    count: int,
) -> Option<GenericErrorView>
    decreases count,
{
    if count <= 0 {
        None
    } else {
        match first_rule_problem(kinds, ids, rules, count - 1) {
            Some(problem) => Some(problem),
            None => rule_problem(kinds, ids, rules, count - 1),
        }
    }
}

/// The first relation without a rule.
pub open spec fn first_missing(rules: Seq<RecursiveRulePlan>, ids: Seq<RelationId>) -> Option<
    RelationId,
>
    decreases ids.len(),
{
    if ids.len() == 0 {
        None
    } else {
        match first_missing(rules, ids.drop_last()) {
            Some(id) => Some(id),
            None => if rounds::has_rule(rules, ids.last()) {
                None
            } else {
                Some(ids.last())
            },
        }
    }
}

/// Why a component cannot be compiled, if so.
pub open spec fn component_problem(
    kinds: RelationKinds,
    ids: Seq<RelationId>,
    rules: Seq<RecursiveRulePlan>,
) -> Option<GenericErrorView> {
    if ids.len() == 0 {
        Some(GenericErrorView::EmptyScc)
    } else {
        match first_problem(kinds, ids) {
            Some(problem) => Some(GenericErrorView::Store(problem)),
            None => match first_rule_problem(kinds, ids, rules, rules.len() as int) {
                Some(problem) => Some(problem),
                None => match first_missing(rules, ids) {
                    Some(id) => Some(GenericErrorView::MissingRuleTarget(id)),
                    None => None,
                },
            },
        }
    }
}

/// Whether an id is among some.
pub(crate) fn lists(ids: &Vec<RelationId>, id: RelationId) -> (found: bool)
    ensures
        found == ids@.contains(id),
{
    let mut i: usize = 0;
    while i < ids.len()
        invariant
            i <= ids@.len(),
            forall|j: int| 0 <= j < i ==> ids@[j] != id,
        decreases ids@.len() - i,
    {
        if ids[i].0 == id.0 {
            assert(ids@[i as int] == id);
            return true;
        }
        i += 1;
    }
    false
}

/// What an evaluation of a component did.
#[derive(Debug, Clone, PartialEq, Eq)]
pub struct SccSummary {
    pub iterations: usize,
    pub total_new_rows: usize,
    pub relation_rows: Vec<(RelationId, usize)>,
    pub last_placements: Vec<(RelationId, IterationPlacements)>,
}

/// Evaluates a recursive component until no relation gains rows.
pub struct RecursiveExecutor {
    relations: Vec<RelationId>,
    rules: Vec<RecursiveRulePlan>,
    targets: Vec<TargetRuntime>,
}

/// Whether the relations that rules derive are there, each with its rules.
spec fn are_grouped(targets: Seq<TargetRuntime>, rules: Seq<RecursiveRulePlan>) -> bool {
    &&& targets.len() == rounds::targets_of(rules).len()
    &&& forall|t: int|
        0 <= t < targets.len() ==> {
            &&& (#[trigger] targets[t]).wf()
            &&& targets[t].id == rounds::targets_of(rules)[t]
            &&& targets[t].plans() == rounds::rules_for(rules, targets[t].id)
        }
}

/// Whether no rule has an index yet.
spec fn are_fresh(targets: Seq<TargetRuntime>) -> bool {
    forall|t: int, i: int|
        #![trigger targets[t].rules@[i]]
        0 <= t < targets.len() && 0 <= i < targets[t].rules@.len() ==> targets[t].rules@[i].index
            is None
}

/// Adding a rule to its relation keeps the grouping.
proof fn lemma_grouped(
    before: Seq<TargetRuntime>,
    after: Seq<TargetRuntime>,
    rules: Seq<RecursiveRulePlan>,
    at: int,
    runtime: RuleRuntime,
    place: int,
)
    requires
        0 <= at < rules.len(),
        are_grouped(before, rules.take(at)),
        are_fresh(before),
        runtime.wf(),
        runtime.plan == rules[at],
        runtime.index is None,
        0 <= place <= before.len(),
        if place < before.len() {
            &&& before[place].id == rules[at].target
            &&& after.len() == before.len()
            &&& after[place].wf()
            &&& after[place].id == before[place].id
            &&& after[place].rules@ == before[place].rules@.push(runtime)
        } else {
            &&& !rounds::targets_of(rules.take(at)).contains(rules[at].target)
            &&& after.len() == before.len() + 1
            &&& after[place].wf()
            &&& after[place].id == rules[at].target
            &&& after[place].rules@ == seq![runtime]
        },
        forall|t: int| 0 <= t < before.len() && t != place ==> #[trigger] after[t] == before[t],
    ensures
        are_grouped(after, rules.take(at + 1)),
        are_fresh(after),
{
    let shorter = rules.take(at);
    let longer = rules.take(at + 1);
    let id = rules[at].target;
    let names = rounds::targets_of(shorter);
    assert(longer.drop_last() =~= shorter);
    assert(longer.last() == rules[at]);
    rounds::lemma_targets_of(shorter);
    rounds::lemma_rules_for(shorter, id);
    if place < before.len() {
        assert(names[place] == id);
        assert(names.contains(id));
    }
    assert forall|t: int| 0 <= t < after.len() implies {
        &&& (#[trigger] after[t]).wf()
        &&& after[t].id == rounds::targets_of(longer)[t]
        &&& after[t].plans() == rounds::rules_for(longer, after[t].id)
    } by {
        if t == place {
            if place < before.len() {
                assert(after[t].plans() =~= before[t].plans().push(rules[at]));
            } else {
                assert(!rounds::has_rule(shorter, id)) by {
                    assert(!names.contains(id));
                }
                assert(rounds::rules_for(shorter, id) =~= Seq::empty());
                assert(after[t].plans() =~= seq![rules[at]]);
                assert(rounds::rules_for(longer, id) =~= seq![rules[at]]);
            }
        } else {
            assert(after[t] == before[t]);
            assert(names[t] != id) by {
                if place < before.len() {
                    assert(names[t] != names[place]);
                } else {
                    assert(names.contains(names[t]));
                }
            }
        }
    }
    assert forall|t: int, i: int|
        #![trigger after[t].rules@[i]]
        0 <= t < after.len() && 0 <= i < after[t].rules@.len() implies after[t].rules@[i].index
        is None by {
        if t < before.len() {
            if t == place {
                if i < before[t].rules@.len() {
                    assert(after[t].rules@[i] == before[t].rules@[i]);
                }
            } else {
                assert(after[t] == before[t]);
                let seen = before[t].rules@[i];
            }
        }
    }
}

/// The place of a relation among some.
fn place_of(targets: &Vec<TargetRuntime>, id: RelationId) -> (place: Option<usize>)
    ensures
        match place {
            Some(t) => t < targets@.len() && targets@[t as int].id == id,
            None => forall|t: int| 0 <= t < targets@.len() ==> (#[trigger] targets@[t]).id != id,
        },
{
    let mut t: usize = 0;
    while t < targets.len()
        invariant
            t <= targets@.len(),
            forall|j: int| 0 <= j < t ==> (#[trigger] targets@[j]).id != id,
        decreases targets@.len() - t,
    {
        if targets[t].id.0 == id.0 {
            return Some(t);
        }
        t += 1;
    }
    None
}

impl RecursiveExecutor {
    /// The relations of the component.
    pub closed spec fn ids(&self) -> Seq<RelationId> {
        self.relations@
    }

    /// The rules of the component.
    pub closed spec fn plans(&self) -> Seq<RecursiveRulePlan> {
        self.rules@
    }

    /// Whether every relation has rules, and the buffers are in order.
    pub closed spec fn wf(&self) -> bool {
        &&& are_grouped(self.targets@, self.plans())
        &&& forall|i: int|
            0 <= i < self.relations@.len() ==> rounds::has_rule(
                self.plans(),
                #[trigger] self.relations@[i],
            )
        &&& forall|i: int|
            0 <= i < self.rules@.len() ==> self.relations@.contains(
                (#[trigger] self.rules@[i]).target,
            )
    }

    /// Whether the indexes that will be used again are ones of the relations as they are.
    pub closed spec fn is_current(&self, store: RelationStore) -> bool {
        forall|t: int|
            0 <= t < self.targets@.len() ==> (#[trigger] self.targets@[t]).cache_valid(store)
    }

    /// Prepares a component whose relations are in a store.
    pub fn compile(plan: RecursiveSccPlan, store: &RelationStore) -> (result: Result<
        Self,
        GenericExecutionError,
    >)
        ensures
            match component_problem(store.kinds(), plan.relations@, plan.rules@) {
                Some(problem) => result is Err && result->Err_0@ == problem,
                None => {
                    &&& result is Ok
                    &&& result->Ok_0.wf()
                    &&& result->Ok_0.ids() == plan.relations@
                    &&& result->Ok_0.plans() == plan.rules@
                    &&& forall|other: RelationStore| #[trigger] result->Ok_0.is_current(other)
                },
            },
    {
        if plan.relations.len() == 0 {
            return Err(GenericExecutionError::EmptyScc);
        }
        let ghost ids = plan.relations@;
        let ghost rules = plan.rules@;
        let mut at: usize = 0;
        while at < plan.relations.len()
            invariant
                at <= ids.len(),
                ids == plan.relations@,
                first_problem(store.kinds(), ids.take(at as int)) is None,
            decreases ids.len() - at,
        {
            proof {
                lemma_first_problem(store.kinds(), ids, at as int);
            }
            match store.delta(plan.relations[at]) {
                Ok(_) => {},
                Err(error) => {
                    return Err(GenericExecutionError::Store(error));
                },
            }
            proof {
                lemma_first_step(store.kinds(), ids, at as int);
            }
            at += 1;
        }
        proof {
            assert(ids.take(ids.len() as int) =~= ids);
        }
        let mut targets: Vec<RelationId> = Vec::new();
        let mut next: usize = 0;
        while next < plan.rules.len()
            invariant
                next <= rules.len(),
                ids == plan.relations@,
                ids.len() > 0,
                rules == plan.rules@,
                first_problem(store.kinds(), ids) is None,
                first_rule_problem(store.kinds(), ids, rules, next as int) is None,
                targets@ == Seq::new(next as nat, |i: int| rules[i].target),
                forall|i: int| 0 <= i < next ==> ids.contains((#[trigger] rules[i]).target),
            decreases rules.len() - next,
        {
            let rule = plan.rules[next];
            proof {
                lemma_first_rule_problem(store.kinds(), ids, rules, next as int);
                assert(rules[next as int] == rule);
            }
            match store.state(rule.delta_input) {
                Ok(_) => {},
                Err(error) => {
                    return Err(GenericExecutionError::Store(error));
                },
            }
            match store.state(rule.right_input) {
                Ok(_) => {},
                Err(error) => {
                    return Err(GenericExecutionError::Store(error));
                },
            }
            if !lists(&plan.relations, rule.target) {
                return Err(GenericExecutionError::TargetOutsideScc(rule.target));
            }
            targets.push(rule.target);
            proof {
                assert(targets@ =~= Seq::new((next + 1) as nat, |i: int| rules[i].target));
            }
            next += 1;
        }
        let mut last: usize = 0;
        while last < plan.relations.len()
            invariant
                last <= ids.len(),
                ids == plan.relations@,
                ids.len() > 0,
                rules == plan.rules@,
                first_problem(store.kinds(), ids) is None,
                first_rule_problem(store.kinds(), ids, rules, rules.len() as int) is None,
                targets@ == Seq::new(rules.len(), |i: int| rules[i].target),
                first_missing(rules, ids.take(last as int)) is None,
                forall|i: int| 0 <= i < last ==> rounds::has_rule(rules, #[trigger] ids[i]),
            decreases ids.len() - last,
        {
            let relation = plan.relations[last];
            proof {
                lemma_first_missing(rules, ids, last as int);
                lemma_missing_step(rules, ids, last as int);
            }
            if !lists(&targets, relation) {
                proof {
                    assert forall|j: int| 0 <= j < rules.len() implies (#[trigger] rules[j]).target
                        != relation by {
                        assert(targets@[j] == rules[j].target);
                    }
                }
                return Err(GenericExecutionError::MissingRuleTarget(relation));
            }
            proof {
                let j = choose|j: int| 0 <= j < targets@.len() && targets@[j] == relation;
                assert(rules[j].target == relation);
            }
            last += 1;
        }
        proof {
            assert(ids.take(ids.len() as int) =~= ids);
        }
        let mut groups: Vec<TargetRuntime> = Vec::new();
        let mut made: usize = 0;
        proof {
            assert(rules.take(0) =~= Seq::empty());
        }
        while made < plan.rules.len()
            invariant
                made <= rules.len(),
                rules == plan.rules@,
                are_grouped(groups@, rules.take(made as int)),
                are_fresh(groups@),
            decreases rules.len() - made,
        {
            let ghost before = groups@;
            let rule = plan.rules[made];
            let runtime = match RuleRuntime::new(rule) {
                Ok(runtime) => runtime,
                Err(error) => {
                    return Err(GenericExecutionError::Storage(error));
                },
            };
            let ghost added = runtime;
            let ghost mut place: int = 0;
            match place_of(&groups, rule.target) {
                Some(t) => {
                    groups[t].add_rule(runtime);
                    proof {
                        place = t as int;
                    }
                },
                None => {
                    match TargetRuntime::new(runtime) {
                        Ok(group) => groups.push(group),
                        Err(error) => {
                            return Err(GenericExecutionError::Storage(error));
                        },
                    }
                    proof {
                        place = before.len() as int;
                        let names = rounds::targets_of(rules.take(made as int));
                        assert forall|t: int| 0 <= t < names.len() implies names[t]
                            != rule.target by {
                            assert(before[t].id == names[t]);
                        }
                    }
                },
            }
            proof {
                lemma_grouped(before, groups@, rules, made as int, added, place);
            }
            made += 1;
        }
        proof {
            assert(rules.take(rules.len() as int) =~= rules);
        }
        let executor = RecursiveExecutor {
            relations: plan.relations,
            rules: plan.rules,
            targets: groups,
        };
        proof {
            assert forall|other: RelationStore| #[trigger] executor.is_current(other) by {
                assert forall|t: int| 0 <= t < executor.targets@.len() implies (
                #[trigger] executor.targets@[t]).cache_valid(other) by {
                    assert forall|i: int|
                        0 <= i < executor.targets@[t].rules@.len() implies (
                    #[trigger] executor.targets@[t].rules@[i]).cache_valid(other) by {}
                }
            }
        }
        Ok(executor)
    }

    /// Whether a relation of the component has new rows.
    fn has_delta(&self, store: &RelationStore) -> (result: Result<bool, RelationStoreError>)
        ensures
            match delta_failure(*store, self.ids(), 0) {
                Some(error) => result is Err && result->Err_0 == error,
                None => result is Ok && result->Ok_0 == finds_delta(*store, self.ids(), 0),
            },
    {
        let mut i: usize = 0;
        while i < self.relations.len()
            invariant
                i <= self.relations@.len(),
                delta_failure(*store, self.ids(), 0) == delta_failure(
                    *store,
                    self.ids(),
                    i as int,
                ),
                finds_delta(*store, self.ids(), 0) == finds_delta(*store, self.ids(), i as int),
            decreases self.relations@.len() - i,
        {
            assert(self.ids()[i as int] == self.relations@[i as int]);
            match store.delta(self.relations[i]) {
                Ok(delta) => {
                    if !delta.is_empty() {
                        return Ok(true);
                    }
                },
                Err(error) => {
                    return Err(error);
                },
            }
            i += 1;
        }
        Ok(false)
    }

    /// How many new rows the relations of the component have.
    fn delta_rows(&self, store: &RelationStore) -> (result: Result<usize, RelationStoreError>)
        ensures
            match result {
                Ok(rows) => rows == execution_general::capped(
                    delta_count(*store, self.ids(), self.ids().len() as int),
                ),
                Err(error) => exists|i: int|
                    0 <= i < self.ids().len() && delta_problem(*store, #[trigger] self.ids()[i])
                        == Some(error),
            },
    {
        let mut rows: usize = 0;
        let mut i: usize = 0;
        while i < self.relations.len()
            invariant
                i <= self.relations@.len(),
                rows == execution_general::capped(delta_count(*store, self.ids(), i as int)),
            decreases self.relations@.len() - i,
        {
            assert(self.ids()[i as int] == self.relations@[i as int]);
            match store.delta(self.relations[i]) {
                Ok(delta) => {
                    rows = rows.saturating_add(delta.len());
                },
                Err(error) => {
                    return Err(error);
                },
            }
            i += 1;
        }
        Ok(rows)
    }
}

/// Why looking for newest rows fails from a relation on: up to one that has some, each must have a
/// place for them.
pub open spec fn delta_failure(store: RelationStore, ids: Seq<RelationId>, from: int) -> Option<
    RelationStoreError,
>
    decreases ids.len() - from,
{
    if from < 0 || from >= ids.len() {
        None
    } else if delta_problem(store, ids[from]) is Some {
        delta_problem(store, ids[from])
    } else if store.get(ids[from])->0.delta->0.rows() > 0 {
        None
    } else {
        delta_failure(store, ids, from + 1)
    }
}

/// Whether looking for newest rows finds some from a relation on.
pub open spec fn finds_delta(store: RelationStore, ids: Seq<RelationId>, from: int) -> bool
    decreases ids.len() - from,
{
    if from < 0 || from >= ids.len() {
        false
    } else {
        store.get(ids[from])->0.delta->0.rows() > 0 || finds_delta(store, ids, from + 1)
    }
}

/// A search that finds nothing and does not fail has seen every relation.
proof fn lemma_nothing_found(store: RelationStore, ids: Seq<RelationId>, from: int)
    requires
        0 <= from,
        delta_failure(store, ids, from) is None,
        !finds_delta(store, ids, from),
    ensures
        forall|j: int|
            from <= j < ids.len() ==> delta_problem(store, #[trigger] ids[j]) is None && store.get(
                ids[j],
            )->0.delta->0.rows() == 0,
    decreases ids.len() - from,
{
    if from < ids.len() {
        lemma_nothing_found(store, ids, from + 1);
    }
}

/// A search through relations that all have a place for newest rows does not fail, and finds some
/// unless all are settled.
proof fn lemma_search(
    store: RelationStore,
    relations: rounds::Relations,
    ids: Seq<RelationId>,
    from: int,
)
    requires
        0 <= from,
        forall|i: int|
            0 <= i < ids.len() ==> delta_problem(store, #[trigger] ids[i]) is None && relations(
                ids[i],
            ).delta.len() == store.get(ids[i])->0.delta->0.rows(),
    ensures
        delta_failure(store, ids, from) is None,
        !finds_delta(store, ids, from) <==> forall|i: int|
            from <= i < ids.len() ==> relations(#[trigger] ids[i]).delta.len() == 0,
    decreases ids.len() - from,
{
    if from < ids.len() {
        lemma_search(store, relations, ids, from + 1);
        assert(delta_problem(store, ids[from]) is None);
    }
}

/// What holds of some first relations and fails at the next fails for all.
proof fn lemma_first_problem(kinds: RelationKinds, ids: Seq<RelationId>, at: int)
    requires
        0 <= at < ids.len(),
        first_problem(kinds, ids.take(at)) is None,
    ensures
        kind_problem(kinds, ids[at]) is Some ==> first_problem(kinds, ids) == kind_problem(
            kinds,
            ids[at],
        ),
    decreases ids.len(),
{
    if at + 1 == ids.len() {
        assert(ids.drop_last() =~= ids.take(at));
    } else {
        let shorter = ids.drop_last();
        assert(shorter.take(at) =~= ids.take(at));
        lemma_first_problem(kinds, shorter, at);
    }
}

proof fn lemma_first_step(kinds: RelationKinds, ids: Seq<RelationId>, at: int)
    requires
        0 <= at < ids.len(),
        first_problem(kinds, ids.take(at)) is None,
    ensures
        first_problem(kinds, ids.take(at + 1)) == kind_problem(kinds, ids[at]),
{
    let longer = ids.take(at + 1);
    assert(longer.drop_last() =~= ids.take(at));
}

proof fn lemma_first_missing(rules: Seq<RecursiveRulePlan>, ids: Seq<RelationId>, at: int)
    requires
        0 <= at < ids.len(),
        first_missing(rules, ids.take(at)) is None,
    ensures
        !rounds::has_rule(rules, ids[at]) ==> first_missing(rules, ids) == Some(ids[at]),
    decreases ids.len(),
{
    if at + 1 == ids.len() {
        assert(ids.drop_last() =~= ids.take(at));
    } else {
        let shorter = ids.drop_last();
        assert(shorter.take(at) =~= ids.take(at));
        lemma_first_missing(rules, shorter, at);
    }
}

proof fn lemma_missing_step(rules: Seq<RecursiveRulePlan>, ids: Seq<RelationId>, at: int)
    requires
        0 <= at < ids.len(),
        first_missing(rules, ids.take(at)) is None,
    ensures
        rounds::has_rule(rules, ids[at]) ==> first_missing(rules, ids.take(at + 1)) is None,
{
    let longer = ids.take(at + 1);
    assert(longer.drop_last() =~= ids.take(at));
}

proof fn lemma_first_rule_problem(
    kinds: RelationKinds,
    ids: Seq<RelationId>,
    rules: Seq<RecursiveRulePlan>,
    at: int,
)
    requires
        0 <= at < rules.len(),
        first_rule_problem(kinds, ids, rules, at) is None,
    ensures
        rule_problem(kinds, ids, rules, at) is Some ==> first_rule_problem(
            kinds,
            ids,
            rules,
            rules.len() as int,
        ) == rule_problem(kinds, ids, rules, at),
{
    if rule_problem(kinds, ids, rules, at) is Some {
        lemma_rule_problem_stays(kinds, ids, rules, at, rules.len() as int);
    }
}

proof fn lemma_rule_problem_stays(
    kinds: RelationKinds,
    ids: Seq<RelationId>,
    rules: Seq<RecursiveRulePlan>,
    at: int,
    count: int,
)
    requires
        0 <= at < count,
        first_rule_problem(kinds, ids, rules, at) is None,
        rule_problem(kinds, ids, rules, at) is Some,
    ensures
        first_rule_problem(kinds, ids, rules, count) == rule_problem(kinds, ids, rules, at),
    decreases count,
{
    if at + 1 < count {
        lemma_rule_problem_stays(kinds, ids, rules, at, count - 1);
    }
}

/// Whether the pairs found for every relation are those that a round adds.
spec fn all_found(
    targets: Seq<TargetRuntime>,
    policies: IterationPolicies,
    relations: rounds::Relations,
) -> bool {
    forall|t: int|
        0 <= t < targets.len() ==> (#[trigger] targets[t]).has_found(policies, relations)
}

/// Whether every relation has found what it gains, with indexes of the relations as they are.
spec fn all_pending(targets: Seq<TargetRuntime>, store: RelationStore) -> bool {
    forall|t: int|
        0 <= t < targets.len() ==> (#[trigger] targets[t]).is_pending()
            && targets[t].cache_current(store)
}

/// What holds of all rules holds of those of one relation.
proof fn lemma_own(
    store: RelationStore,
    rules: Seq<RecursiveRulePlan>,
    id: RelationId,
)
    requires
        rounds::has_rule(rules, id),
    ensures
        all_ready(store, rules) ==> all_ready(store, rounds::rules_for(rules, id)),
        round_fits(rules, store.pairs()) ==> own_fits(
            rounds::rules_for(rules, id),
            id,
            store.pairs(),
        ),
{
    let own = rounds::rules_for(rules, id);
    rounds::lemma_rules_for(rules, id);
    assert forall|k: int| 0 <= k < own.len() implies exists|j: int|
        0 <= j < rules.len() && rules[j] == #[trigger] own[k] by {
        assert(rules.contains(own[k]));
    }
    if all_ready(store, rules) {
        assert forall|k: int| 0 <= k < own.len() implies is_ready(store, #[trigger] own[k]) by {
            let j = choose|j: int| 0 <= j < rules.len() && rules[j] == own[k];
            assert(is_ready(store, rules[j]));
        }
    }
    if round_fits(rules, store.pairs()) {
        assert(target_fits(rules, id, store.pairs()));
        assert forall|k: int| 0 <= k < own.len() implies rule_fits(
            #[trigger] own[k],
            store.pairs(),
        ) by {
            let j = choose|j: int| 0 <= j < rules.len() && rules[j] == own[k];
            assert(rule_fits(rules[j], store.pairs()));
        }
    }
}

/// Whether each relation of a store is as it was before, or in a later state.
#[verifier::opaque]
spec fn moves_on(before: RelationStore, after: RelationStore) -> bool {
    forall|id: RelationId|
        #[trigger] after.get(id) == before.get(id) || {
            &&& after.get(id) is Some
            &&& before.get(id) is Some
            &&& after.get(id)->0.version != before.get(id)->0.version
        }
}

/// Whether a relation may be united by a rule: it has two columns, or uniting fails for want of one.
/// The buffers of a relation with a single column cannot take pairs.
pub open spec fn may_unite(relation: Option<StoredRelation>, rule: RecursiveRulePlan) -> bool {
    relation matches Some(target) ==> {
        let columns = target.full.contents().len();
        columns >= 2 || rule.union.left@[0] >= columns || rule.union.left@[1] >= columns
    }
}

/// Whether the targets of rules may be united.
pub open spec fn can_unite(store: RelationStore, rules: Seq<RecursiveRulePlan>) -> bool {
    forall|i: int|
        0 <= i < rules.len() ==> may_unite(store.get((#[trigger] rules[i]).target), rules[i])
}

/// Whether the rows of the relations that rules join with can be numbered.
#[verifier::opaque]
pub open spec fn all_numbered(store: RelationStore, rules: Seq<RecursiveRulePlan>) -> bool {
    forall|i: int| 0 <= i < rules.len() ==> is_numbered(store, #[trigger] rules[i])
}

/// The `k`th rule of the `t`th relation.
pub open spec fn stopping_rule(rules: Seq<RecursiveRulePlan>, t: int, k: int) -> RecursiveRulePlan {
    rounds::rules_for(rules, rounds::targets_of(rules)[t])[k]
}

/// Whether a round that stops for want of a column to join on fails with that, and changes nothing.
#[verifier::opaque]
pub open spec fn tells_key(
    store: RelationStore,
    rules: Seq<RecursiveRulePlan>,
    failure: Option<GenericErrorView>,
    unchanged: bool,
) -> bool {
    forall|t: int, k: int| #[trigger]
        round_stops_at(store, rules, t, k) ==> failure == Some(
            missing_key(stopping_rule(rules, t, k)),
        ) && unchanged
}

/// What a result says of why it failed.
pub open spec fn failure_of<T>(result: Result<T, GenericExecutionError>) -> Option<
    GenericErrorView,
> {
    match result {
        Ok(_) => None,
        Err(error) => Some(error@),
    }
}

proof fn lemma_tells_key(
    store: RelationStore,
    rules: Seq<RecursiveRulePlan>,
    failure: Option<GenericErrorView>,
    unchanged: bool,
)
    requires
        tells_key(store, rules, None, false),
    ensures
        tells_key(store, rules, failure, unchanged),
{
    reveal(tells_key);
}

/// Whether a store has the relations of another one, of the same kinds, and those that are at least
/// binary still are.
#[verifier::opaque]
pub open spec fn keeps_kinds(before: RelationStore, after: RelationStore) -> bool {
    forall|id: RelationId|
        match #[trigger] after.get(id) {
            None => before.get(id) is None,
            Some(relation) => {
                &&& before.get(id) is Some
                &&& relation.delta is Some <==> before.get(id)->0.delta is Some
                &&& before.get(id)->0.full.contents().len() >= 2 ==> relation.full.contents().len()
                    >= 2
            },
        }
}

/// The relations of some first groups of rules, each as often as it has rules.
pub open spec fn first_names(rules: Seq<RecursiveRulePlan>, count: int) -> Seq<RelationId>
    decreases count,
{
    if count <= 0 {
        Seq::empty()
    } else {
        let id = rounds::targets_of(rules)[count - 1];
        first_names(rules, count - 1) + Seq::new(
            rounds::rules_for(rules, id).len(),
            |k: int| id,
        )
    }
}

/// The relations that a list of placements names.
pub open spec fn names_of(placements: Seq<(RelationId, IterationPlacements)>) -> Seq<RelationId> {
    Seq::new(placements.len(), |i: int| placements[i].0)
}

/// Whether a list names the target of every rule, relation by relation.
pub open spec fn names_targets(
    placements: Seq<(RelationId, IterationPlacements)>,
    rules: Seq<RecursiveRulePlan>,
) -> bool {
    names_of(placements) == first_names(rules, rounds::targets_of(rules).len() as int)
}

/// Whether a relation is the result of a round, found without a device.
pub open spec fn is_advanced(
    rules: Seq<RecursiveRulePlan>,
    id: RelationId,
    before: rounds::Relations,
    found: Option<StoredRelation>,
) -> bool {
    let new = rounds::new_pairs(rules, id, before);
    &&& found is Some
    &&& found->0.delta is Some
    &&& found->0.full.contents().len() >= 2
    &&& found->0.pairs() == (RelationRows {
        full: rounds::with_new(before(id).full, new),
        delta: new,
        rest: Seq::empty(),
    })
}

/// Whether the first relations have gained their pairs in a store, and the others not.
#[verifier::opaque]
spec fn applied(
    rules: Seq<RecursiveRulePlan>,
    before: RelationStore,
    after: RelationStore,
    count: int,
) -> bool {
    forall|id: RelationId|
        if rounds::targets_of(rules).take(count).contains(id) {
            is_advanced(rules, id, before.pairs(), #[trigger] after.get(id))
        } else {
            after.get(id) == before.get(id)
        }
}

/// Whether the relations of every rule were last computed by the processor.
pub open spec fn all_by_processor(store: RelationStore, rules: Seq<RecursiveRulePlan>) -> bool {
    forall|i: int|
        0 <= i < rules.len() ==> (store.get((#[trigger] rules[i]).target) matches Some(relation)
            ==> relation.full_provenance == InputProvenance::Cpu && relation.delta_provenance
            == InputProvenance::Cpu)
}

proof fn lemma_applied(
    rules: Seq<RecursiveRulePlan>,
    before: RelationStore,
    after: RelationStore,
)
    requires
        all_ready(before, rules),
        applied(rules, before, after, rounds::targets_of(rules).len() as int),
    ensures
        after.pairs() == rounds::after_round(rules, before.pairs()),
        all_ready(after, rules),
{
    reveal(applied);
    let names = rounds::targets_of(rules);
    assert(names.take(names.len() as int) =~= names);
    rounds::lemma_targets_of(rules);
    assert forall|id: RelationId| #[trigger]
        after.pairs()(id) == rounds::after_round(rules, before.pairs())(id) by {
        let found = after.get(id);
        assert(names.contains(id) <==> rounds::has_rule(rules, id));
    }
    assert(after.pairs() =~= rounds::after_round(rules, before.pairs()));
    assert forall|i: int| 0 <= i < rules.len() implies is_ready(after, #[trigger] rules[i]) by {
        let rule = rules[i];
        assert(is_ready(before, rule));
        assert(rounds::has_rule(rules, rule.target));
        assert(names.contains(rule.target));
        assert(names.contains(rule.delta_input) <==> rounds::has_rule(rules, rule.delta_input));
        assert(names.contains(rule.right_input) <==> rounds::has_rule(rules, rule.right_input));
        let a = after.get(rule.target);
        let b = after.get(rule.delta_input);
        let c = after.get(rule.right_input);
        rounds::law_distinct_list(
            before.pairs()(rule.target).full + rounds::new_pairs(
                rules,
                rule.target,
                before.pairs(),
            ),
        );
    }
}

impl RecursiveExecutor {
    /// Lets every relation find the pairs that it gains.
    fn evaluate_all(&mut self, store: &RelationStore, policies: IterationPolicies) -> (result: Result<
        (),
        GenericExecutionError,
    >)
        requires
            old(self).wf(),
            store.wf(),
            old(self).is_current(*store),
        ensures
            final(self).wf(),
            final(self).ids() == old(self).ids(),
            final(self).plans() == old(self).plans(),
            final(self).is_current(*store),
            result is Ok ==> all_pending(final(self).targets@, *store),
            result is Ok && all_ready(*store, old(self).plans()) ==> all_found(
                final(self).targets@,
                policies,
                store.pairs(),
            ),
            result is Ok ==> all_numbered(*store, old(self).plans()),
            forall|t: int, k: int| #[trigger]
                round_stops_at(*store, old(self).plans(), t, k) ==> result is Err
                    && result->Err_0@ == missing_key(stopping_rule(old(self).plans(), t, k)),
            all_ready(*store, old(self).plans()) && round_fits(old(self).plans(), store.pairs())
                ==> result is Ok,
            result matches Err(error) ==> !(error@ is IterationLimit),
    {
        let ghost plans = self.plans();
        let ghost ids = self.relations@;
        let ghost names = rounds::targets_of(plans);
        let mut i: usize = 0;
        while i < self.targets.len()
            invariant
                i <= self.targets@.len(),
                self.wf(),
                store.wf(),
                self.is_current(*store),
                self.relations@ == ids,
                self.plans() == plans,
                old(self).plans() == plans,
                old(self).ids() == ids,
                names == rounds::targets_of(plans),
                forall|j: int|
                    0 <= j < i ==> (#[trigger] self.targets@[j]).is_pending()
                        && self.targets@[j].cache_current(*store),
                all_ready(*store, plans) ==> forall|j: int|
                    0 <= j < i ==> (#[trigger] self.targets@[j]).has_found(policies, store.pairs()),
                self.targets@.len() == names.len(),
                forall|j: int|
                    0 <= j < i ==> all_numbered(
                        *store,
                        rounds::rules_for(plans, #[trigger] names[j]),
                    ),
                forall|t: int, k: int| #[trigger] round_stops_at(*store, plans, t, k) ==> i <= t,
            decreases self.targets@.len() - i,
        {
            let ghost before = *self;
            proof {
                reveal(all_numbered);
                let id = self.targets@[i as int].id;
                rounds::lemma_targets_of(plans);
                assert(names[i as int] == id);
                assert(names.contains(id));
                lemma_own(*store, plans, id);
            }
            let outcome = self.targets[i].evaluate(store, policies);
            proof {
                assert forall|j: int|
                    0 <= j < self.targets@.len() && j != i implies #[trigger] self.targets@[j]
                    == before.targets@[j] by {}
                assert forall|t: int| 0 <= t < self.targets@.len() implies {
                    &&& (#[trigger] self.targets@[t]).wf()
                    &&& self.targets@[t].id == names[t]
                    &&& self.targets@[t].plans() == rounds::rules_for(plans, self.targets@[t].id)
                } by {
                    let seen = before.targets@[t];
                }
            }
            proof {
                let own = rounds::rules_for(plans, names[i as int]);
                assert(own == before.targets@[i as int].plans());
                assert forall|t: int, k: int| #[trigger] round_stops_at(*store, plans, t, k) && t
                    == i implies stops_at(*store, own, k) by {}
                assert forall|t: int, k: int| #[trigger] round_stops_at(*store, plans, t, k) && i
                    < t implies all_ready(*store, own) && own_fits(
                    own,
                    names[i as int],
                    store.pairs(),
                ) by {}
            }
            match outcome {
                Ok(_) => {},
                Err(error) => {
                    return Err(error);
                },
            }
            i += 1;
        }
        proof {
            reveal(all_numbered);
            rounds::lemma_targets_of(plans);
            assert forall|j: int| 0 <= j < plans.len() implies is_numbered(
                *store,
                #[trigger] plans[j],
            ) by {
                let id = plans[j].target;
                assert(rounds::has_rule(plans, id));
                assert(names.contains(id));
                let t = choose|t: int| 0 <= t < names.len() && names[t] == id;
                rounds::lemma_rules_for(plans, id);
                let own = rounds::rules_for(plans, names[t]);
                assert(plans.contains(plans[j]));
                assert(own.contains(plans[j]));
                let m = choose|m: int| 0 <= m < own.len() && own[m] == plans[j];
                assert(is_numbered(*store, own[m]));
            }
        }
        Ok(())
    }

    /// Adds what was found to every relation.
    #[verifier::rlimit(60)]
    fn apply_all(&mut self, store: &mut RelationStore, policies: IterationPolicies) -> (result: Result<
        (usize, Vec<(RelationId, IterationPlacements)>),
        GenericExecutionError,
    >)
        requires
            old(self).wf(),
            old(store).wf(),
            old(self).is_current(*old(store)),
            can_unite(*old(store), old(self).plans()),
            all_pending(old(self).targets@, *old(store)),
        ensures
            final(self).wf(),
            final(store).wf(),
            final(self).ids() == old(self).ids(),
            final(self).plans() == old(self).plans(),
            final(self).is_current(*final(store)),
            can_unite(*final(store), old(self).plans()),
            keeps_kinds(*old(store), *final(store)),
            forall|id: RelationId|
                !rounds::has_rule(old(self).plans(), id) ==> #[trigger] final(store).get(id)
                    == old(store).get(id),
            result matches Ok(done) ==> names_targets(done.1@, old(self).plans()),
            result matches Ok(done) ==> (all_ready(*old(store), old(self).plans()) && all_found(
                old(self).targets@,
                policies,
                old(store).pairs(),
            ) ==> {
                &&& final(store).pairs() == rounds::after_round(
                    old(self).plans(),
                    old(store).pairs(),
                )
                &&& all_ready(*final(store), old(self).plans())
                &&& all_by_processor(*final(store), old(self).plans())
                &&& done.0 == execution_general::capped(
                    new_count(
                        old(self).plans(),
                        old(store).pairs(),
                        rounds::targets_of(old(self).plans()).len() as int,
                    ),
                )
                &&& done.1@ == round_placements(policies, old(self).plans(), old(store).pairs())
            }),
            all_ready(*old(store), old(self).plans()) && all_found(
                old(self).targets@,
                policies,
                old(store).pairs(),
            ) && round_fits(old(self).plans(), old(store).pairs()) ==> result is Ok,
            result matches Err(error) ==> !(error@ is IterationLimit),
    {
        let ghost plans = self.plans();
        let ghost ids = self.relations@;
        let ghost first = *store;
        let ghost targets = self.targets@;
        let ghost names = rounds::targets_of(plans);
        let ghost exact = all_ready(first, plans) && all_found(targets, policies, first.pairs());
        let mut new_rows: usize = 0;
        let mut placements: Vec<(RelationId, IterationPlacements)> = Vec::new();
        let mut i: usize = 0;
        proof {
            reveal(moves_on);
            lemma_kinds_same(first);
            rounds::lemma_targets_of(plans);
            assert(applied(plans, first, *store, 0)) by {
                reveal(applied);
                assert(names.take(0) =~= Seq::empty());
            }
            assert(names_of(placements@) =~= first_names(plans, 0));
        }
        while i < self.targets.len()
            invariant
                i <= self.targets@.len(),
                self.wf(),
                store.wf(),
                first.wf(),
                first == *old(store),
                old(self).plans() == plans,
                old(self).ids() == ids,
                old(self).targets@ == targets,
                self.targets@.len() == targets.len(),
                targets.len() == names.len(),
                self.relations@ == ids,
                self.plans() == plans,
                self.is_current(*store),
                can_unite(*store, plans),
                names == rounds::targets_of(plans),
                names.no_duplicates(),
                forall|id: RelationId| #[trigger]
                    names.contains(id) <==> rounds::has_rule(plans, id),
                moves_on(first, *store),
                keeps_kinds(first, *store),
                exact == (all_ready(first, plans) && all_found(targets, policies, first.pairs())),
                all_pending(targets, first),
                are_grouped(targets, plans),
                forall|j: int| i <= j < targets.len() ==> #[trigger] self.targets@[j] == targets[j],
                forall|j: int|
                    0 <= j < targets.len() ==> (#[trigger] self.targets@[j]).rules@
                        == targets[j].rules@,
                forall|j: int| 0 <= j < targets.len() ==> (#[trigger] targets[j]).cache_valid(first),
                forall|j: int|
                    i <= j < names.len() ==> store.get(#[trigger] names[j]) == first.get(names[j]),
                forall|id: RelationId|
                    !rounds::has_rule(plans, id) ==> #[trigger] store.get(id) == first.get(id),
                names_of(placements@) == first_names(plans, i as int),
                exact ==> applied(plans, first, *store, i as int),
                exact ==> forall|j: int|
                    0 <= j < i ==> (store.get(#[trigger] names[j]) matches Some(relation)
                        ==> relation.full_provenance == InputProvenance::Cpu
                        && relation.delta_provenance == InputProvenance::Cpu),
                exact ==> new_rows == execution_general::capped(
                    new_count(plans, first.pairs(), i as int),
                ),
                exact ==> placements@ == first_placements(policies, plans, first.pairs(), i as int),
            decreases self.targets@.len() - i,
        {
            let ghost before = *self;
            let ghost earlier = *store;
            let ghost placed = placements@;
            let target = self.targets[i].id;
            proof {
                assert(self.targets@[i as int] == targets[i as int]);
                assert(names[i as int] == target);
                assert(names.contains(target));
                rounds::lemma_rules_for(plans, target);
                let own = rounds::rules_for(plans, target);
                assert(own == targets[i as int].plans());
                let k = choose|k: int| 0 <= k < plans.len() && plans[k] == own[0];
                assert(plans.contains(own[0]));
                assert(plans[k] == own[0]);
                assert(may_unite(store.get(plans[k].target), plans[k]));
                first.lemma_wf(target);
                assert(targets[i as int].is_pending());
                if exact {
                    lemma_own(first, plans, target);
                    assert(is_ready(first, own[0]));
                    assert(targets[i as int].has_found(policies, first.pairs()));
                }
            }
            let outcome = self.targets[i].apply(store, policies);
            proof {
                assert forall|j: int|
                    0 <= j < self.targets@.len() && j != i implies #[trigger] self.targets@[j]
                    == before.targets@[j] by {}
                lemma_moves_on(first, earlier, *store, target);
                lemma_keeps_kinds(first, earlier, *store, target);
                lemma_targets_current(targets, self.targets@, first, *store);
                assert forall|t: int| 0 <= t < self.targets@.len() implies {
                    &&& (#[trigger] self.targets@[t]).wf()
                    &&& self.targets@[t].id == names[t]
                    &&& self.targets@[t].plans() == rounds::rules_for(plans, self.targets@[t].id)
                } by {
                    let seen = before.targets@[t];
                    assert(self.targets@[t].plans() =~= targets[t].plans());
                }
                assert forall|j: int| 0 <= j < plans.len() implies may_unite(
                    store.get((#[trigger] plans[j]).target),
                    plans[j],
                ) by {
                    if plans[j].target != target {
                        assert(store.get(plans[j].target) == earlier.get(plans[j].target));
                    }
                }
            }
            let places = match outcome {
                Ok(places) => places,
                Err(error) => {
                    return Err(error);
                },
            };
            proof {
                if exact {
                    lemma_apply_step(plans, first, earlier, *store, i as int);
                }
                store.lemma_wf(target);
            }
            match store.delta(target) {
                Ok(delta) => {
                    new_rows = new_rows.saturating_add(delta.len());
                },
                Err(error) => {
                    return Err(GenericExecutionError::Store(error));
                },
            }
            let ghost found = places@;
            let mut rest = places;
            placements.append(&mut rest);
            proof {
                let own = rounds::rules_for(plans, target);
                assert(placements@ =~= placed + found);
                assert(names_of(placements@) =~= first_names(plans, i as int) + Seq::new(
                    own.len(),
                    |k: int| target,
                ));
                if exact {
                    assert(found =~= placements_for(policies, plans, target, first.pairs()));
                }
                assert forall|j: int| i < j < names.len() implies store.get(#[trigger] names[j])
                    == first.get(names[j]) by {
                    assert(names[j] != target);
                }
                assert forall|j: int| exact && 0 <= j < i + 1 implies (store.get(#[trigger] names[j])
                    matches Some(relation) ==> relation.full_provenance == InputProvenance::Cpu
                    && relation.delta_provenance == InputProvenance::Cpu) by {
                    if j < i {
                        assert(names[j] != target);
                        assert(store.get(names[j]) == earlier.get(names[j]));
                    }
                }
            }
            i += 1;
        }
        proof {
            if exact {
                lemma_applied(plans, first, *store);
                assert forall|k: int| 0 <= k < plans.len() implies (store.get(
                    (#[trigger] plans[k]).target,
                ) matches Some(relation) ==> relation.full_provenance == InputProvenance::Cpu
                    && relation.delta_provenance == InputProvenance::Cpu) by {
                    assert(rounds::has_rule(plans, plans[k].target));
                    assert(names.contains(plans[k].target));
                    let j = choose|j: int| 0 <= j < names.len() && names[j] == plans[k].target;
                    assert(names[j] == plans[k].target);
                }
            }
        }
        Ok((new_rows, placements))
    }
}

/// A step on one relation that keeps its kind keeps the kinds of all.
proof fn lemma_keeps_kinds(
    first: RelationStore,
    earlier: RelationStore,
    after: RelationStore,
    target: RelationId,
)
    requires
        keeps_kinds(first, earlier),
        forall|other: RelationId|
            other != target ==> #[trigger] after.get(other) == earlier.get(other),
        after.get(target) == earlier.get(target) || {
            &&& after.get(target) is Some
            &&& earlier.get(target) is Some
            &&& after.get(target)->0.delta is Some
            &&& earlier.get(target)->0.delta is Some
            &&& after.get(target)->0.full.contents().len() >= 2
        },
    ensures
        keeps_kinds(first, after),
{
    reveal(keeps_kinds);
    assert forall|id: RelationId|
        match #[trigger] after.get(id) {
            None => first.get(id) is None,
            Some(relation) => {
                &&& first.get(id) is Some
                &&& relation.delta is Some <==> first.get(id)->0.delta is Some
                &&& first.get(id)->0.full.contents().len() >= 2 ==> relation.full.contents().len()
                    >= 2
            },
        } by {
        let seen = earlier.get(id);
        if id != target {
            assert(after.get(id) == earlier.get(id));
        }
    }
}

/// A step on one relation keeps that every relation is as it was or in a later state.
proof fn lemma_moves_on(
    first: RelationStore,
    earlier: RelationStore,
    after: RelationStore,
    target: RelationId,
)
    requires
        moves_on(first, earlier),
        earlier.get(target) == first.get(target),
        forall|other: RelationId|
            other != target ==> #[trigger] after.get(other) == earlier.get(other),
        after.get(target) == earlier.get(target) || {
            &&& after.get(target) is Some
            &&& earlier.get(target) is Some
            &&& after.get(target)->0.version != earlier.get(target)->0.version
        },
    ensures
        moves_on(first, after),
{
    reveal(moves_on);
    assert forall|id: RelationId|
        #[trigger] after.get(id) == first.get(id) || {
            &&& after.get(id) is Some
            &&& first.get(id) is Some
            &&& after.get(id)->0.version != first.get(id)->0.version
        } by {
        if id != target {
            assert(after.get(id) == earlier.get(id));
        }
    }
}

/// Indexes that were current stay ones that may be used.
proof fn lemma_still_current(
    rules: Seq<RuleRuntime>,
    later: Seq<RuleRuntime>,
    first: RelationStore,
    after: RelationStore,
)
    requires
        rules.len() == later.len(),
        forall|j: int|
            0 <= j < rules.len() ==> (#[trigger] rules[j]).cache_valid(first)
                && rules[j].cache_current(first),
        forall|j: int|
            0 <= j < rules.len() ==> (#[trigger] later[j]).index == rules[j].index
                && later[j].plan == rules[j].plan,
        moves_on(first, after),
    ensures
        forall|j: int| 0 <= j < later.len() ==> (#[trigger] later[j]).cache_valid(after),
{
    reveal(moves_on);
    assert forall|j: int| 0 <= j < later.len() implies (#[trigger] later[j]).cache_valid(after) by {
        assert(rules[j].cache_valid(first));
        let right = after.get(later[j].plan.right_input);
        assert(right == first.get(later[j].plan.right_input) || right->0.version != first.get(
            later[j].plan.right_input,
        )->0.version);
    }
}

/// Indexes of all relations that were current stay ones that may be used.
proof fn lemma_targets_current(
    targets: Seq<TargetRuntime>,
    later: Seq<TargetRuntime>,
    first: RelationStore,
    after: RelationStore,
)
    requires
        targets.len() == later.len(),
        forall|j: int| 0 <= j < targets.len() ==> (#[trigger] targets[j]).cache_valid(first),
        all_pending(targets, first),
        forall|j: int|
            0 <= j < targets.len() ==> (#[trigger] later[j]).rules@ == targets[j].rules@,
        moves_on(first, after),
    ensures
        forall|j: int| 0 <= j < later.len() ==> (#[trigger] later[j]).cache_valid(after),
{
    assert forall|j: int| 0 <= j < later.len() implies (#[trigger] later[j]).cache_valid(after) by {
        assert(targets[j].cache_valid(first));
        assert(targets[j].cache_current(first));
        lemma_still_current(targets[j].rules@, later[j].rules@, first, after);
    }
}

/// What one application does, among those of a round.
proof fn lemma_apply_step(
    plans: Seq<RecursiveRulePlan>,
    first: RelationStore,
    earlier: RelationStore,
    after: RelationStore,
    i: int,
)
    requires
        0 <= i < rounds::targets_of(plans).len(),
        applied(plans, first, earlier, i),
        ({
            let target = rounds::targets_of(plans)[i];
            &&& earlier.get(target) == first.get(target)
            &&& forall|other: RelationId|
                other != target ==> #[trigger] after.get(other) == earlier.get(other)
            &&& is_advanced(plans, target, first.pairs(), after.get(target))
        }),
    ensures
        applied(plans, first, after, i + 1),
{
    reveal(applied);
    let names = rounds::targets_of(plans);
    let target = names[i];
    assert forall|id: RelationId|
        if names.take(i + 1).contains(id) {
            is_advanced(plans, id, first.pairs(), #[trigger] after.get(id))
        } else {
            after.get(id) == first.get(id)
        } by {
        let seen = earlier.get(id);
        assert(names.take(i + 1) =~= names.take(i).push(target));
        assert(names.take(i + 1).contains(id) <==> names.take(i).contains(id) || id == target) by {
            if names.take(i).contains(id) {
                let k = choose|k: int| 0 <= k < i && names.take(i)[k] == id;
                assert(names.take(i + 1)[k] == id);
            }
            if id == target {
                assert(names.take(i + 1)[i] == id);
            }
        }
        if id != target {
            assert(after.get(id) == earlier.get(id));
        }
    }
}

/// A relation that is ready has as many newest pairs as rows.
proof fn lemma_delta_rows(store: RelationStore, rule: RecursiveRulePlan)
    requires
        store.wf(),
        is_ready(store, rule),
    ensures
        store.pairs()(rule.target).delta.len() == store.get(rule.target)->0.delta->0.rows(),
        delta_problem(store, rule.target) is None,
{
    store.lemma_wf(rule.target);
}

/// Whether a summary lists the rows that relations have in a store.
pub open spec fn lists_rows(store: RelationStore, ids: Seq<RelationId>, summary: SccSummary) -> bool {
    &&& summary.relation_rows@.len() == ids.len()
    &&& forall|k: int|
        0 <= k < ids.len() ==> {
            &&& (#[trigger] summary.relation_rows@[k]).0 == ids[k]
            &&& store.get(ids[k]) is Some
            &&& summary.relation_rows@[k].1 == store.get(ids[k])->0.full.rows()
        }
}

/// How many newest pairs some relations have.
pub open spec fn pair_count(relations: rounds::Relations, ids: Seq<RelationId>, count: int) -> nat
    decreases count,
{
    if count <= 0 {
        0
    } else {
        pair_count(relations, ids, count - 1) + relations(ids[count - 1]).delta.len()
    }
}

proof fn lemma_pair_count(
    store: RelationStore,
    rules: Seq<RecursiveRulePlan>,
    ids: Seq<RelationId>,
    count: int,
)
    requires
        store.wf(),
        all_ready(store, rules),
        count <= ids.len(),
        forall|i: int| 0 <= i < ids.len() ==> rounds::has_rule(rules, #[trigger] ids[i]),
    ensures
        delta_count(store, ids, count) == pair_count(store.pairs(), ids, count),
        forall|i: int|
            0 <= i < count ==> delta_problem(store, #[trigger] ids[i]) is None
                && store.pairs()(ids[i]).delta.len() == store.get(ids[i])->0.delta->0.rows(),
    decreases count,
{
    if count > 0 {
        lemma_pair_count(store, rules, ids, count - 1);
        assert(rounds::has_rule(rules, ids[count - 1]));
        let j = choose|j: int|
            0 <= j < rules.len() && (#[trigger] rules[j]).target == ids[count - 1];
        lemma_delta_rows(store, rules[j]);
    }
}

impl RecursiveExecutor {
    pub proof fn lemma_shape(&self)
        requires
            self.wf(),
        ensures
            forall|i: int|
                0 <= i < self.ids().len() ==> rounds::has_rule(self.plans(), #[trigger] self.ids()[i]),
            forall|i: int|
                0 <= i < self.plans().len() ==> self.ids().contains(
                    (#[trigger] self.plans()[i]).target,
                ),
    {
        assert forall|i: int| 0 <= i < self.plans().len() implies self.ids().contains(
            (#[trigger] self.plans()[i]).target,
        ) by {
            assert(self.relations@.contains(self.rules@[i].target));
        }
    }

    /// One round: every rule finds its new pairs, then all are added.
    fn round(&mut self, store: &mut RelationStore, policies: IterationPolicies) -> (result: Result<
        (usize, Vec<(RelationId, IterationPlacements)>),
        GenericExecutionError,
    >)
        requires
            old(self).wf(),
            old(store).wf(),
            old(self).is_current(*old(store)),
            can_unite(*old(store), old(self).plans()),
        ensures
            final(self).wf(),
            final(store).wf(),
            final(self).ids() == old(self).ids(),
            final(self).plans() == old(self).plans(),
            final(self).is_current(*final(store)),
            can_unite(*final(store), old(self).plans()),
            keeps_kinds(*old(store), *final(store)),
            forall|id: RelationId|
                !rounds::has_rule(old(self).plans(), id) ==> #[trigger] final(store).get(id) == old(
                    store,
                ).get(id),
            result matches Ok(done) ==> names_targets(done.1@, old(self).plans()),
            result matches Ok(done) ==> (all_ready(*old(store), old(self).plans()) ==> {
                &&& final(store).pairs() == rounds::after_round(
                    old(self).plans(),
                    old(store).pairs(),
                )
                &&& all_ready(*final(store), old(self).plans())
                &&& all_by_processor(*final(store), old(self).plans())
                &&& done.0 == execution_general::capped(
                    new_count(
                        old(self).plans(),
                        old(store).pairs(),
                        rounds::targets_of(old(self).plans()).len() as int,
                    ),
                )
                &&& done.1@ == round_placements(policies, old(self).plans(), old(store).pairs())
            }),
            result is Ok ==> all_numbered(*old(store), old(self).plans()),
            tells_key(
                *old(store),
                old(self).plans(),
                failure_of(result),
                result is Err && *final(store) == *old(store),
            ),
            all_ready(*old(store), old(self).plans()) && round_fits(
                old(self).plans(),
                old(store).pairs(),
            ) ==> result is Ok,
            result matches Err(error) ==> !(error@ is IterationLimit),
    {
        let ghost first = *store;
        let ghost plans = self.plans();
        match self.evaluate_all(store, policies) {
            Ok(_) => {
                proof {
                    assert(tells_key(first, plans, None, false)) by {
                        reveal(tells_key);
                    }
                }
            },
            Err(error) => {
                proof {
                    lemma_kinds_same(*store);
                    assert(tells_key(first, plans, Some(error@), true)) by {
                        reveal(tells_key);
                    }
                }
                return Err(error);
            },
        }
        let done = self.apply_all(store, policies);
        proof {
            lemma_tells_key(
                first,
                plans,
                failure_of(done),
                done is Err && *store == first,
            );
        }
        done
    }

    /// Runs rounds until no relation of the component has new rows, or the rounds are used up.
    ///
    /// The rows are those of [`rounds::after_rounds`] where every rule is ready. A rule that
    /// subtracts or unites on other columns than the first two in order reads relations that are not
    /// sorted on them: what it leaves depends on how the thread pool cuts them into ranges.
    #[verifier::rlimit(80)]
    pub fn run(
        &mut self,
        store: &mut RelationStore,
        policies: IterationPolicies,
        max_iterations: usize,
    ) -> (result: Result<SccSummary, GenericExecutionError>)
        requires
            old(self).wf(),
            old(store).wf(),
            old(self).is_current(*old(store)),
            can_unite(*old(store), old(self).plans()),
        ensures
            final(self).wf(),
            final(store).wf(),
            final(self).is_current(*final(store)),
            final(self).ids() == old(self).ids(),
            final(self).plans() == old(self).plans(),
            can_unite(*final(store), old(self).plans()),
            keeps_kinds(*old(store), *final(store)),
            forall|id: RelationId|
                !rounds::has_rule(old(self).plans(), id) ==> #[trigger] final(store).get(id) == old(
                    store,
                ).get(id),
            result matches Ok(summary) ==> {
                let ids = old(self).ids();
                &&& summary.iterations <= max_iterations
                &&& lists_rows(*final(store), ids, summary)
                &&& forall|i: int|
                    0 <= i < ids.len() ==> {
                        &&& delta_problem(*final(store), #[trigger] ids[i]) is None
                        &&& final(store).get(ids[i])->0.delta->0.rows() == 0
                    }
                &&& if summary.iterations == 0 {
                    summary.last_placements@.len() == 0
                } else {
                    names_targets(summary.last_placements@, old(self).plans())
                }
                &&& summary.iterations == 0 ==> *final(store) == *old(store)
                &&& summary.iterations > 0 ==> all_numbered(*old(store), old(self).plans())
            },
            delta_failure(*old(store), old(self).ids(), 0) is None && finds_delta(
                *old(store),
                old(self).ids(),
                0,
            ) && max_iterations > 0 ==> tells_key(
                *old(store),
                old(self).plans(),
                failure_of(result),
                *final(store) == *old(store),
            ),
            result matches Ok(summary) ==> (all_ready(*old(store), old(self).plans()) ==> {
                let plans = old(self).plans();
                let start = old(store).pairs();
                let count = summary.iterations as nat;
                &&& final(store).pairs() == rounds::after_rounds(plans, start, count)
                &&& all_ready(*final(store), plans)
                &&& rounds::is_settled(old(self).ids(), rounds::after_rounds(plans, start, count))
                &&& goes_on(old(self).ids(), plans, start, count)
                &&& summary.total_new_rows == execution_general::capped(
                    total_count(plans, start, count),
                )
                &&& count > 0 ==> {
                    &&& all_by_processor(*final(store), plans)
                    &&& summary.last_placements@ == round_placements(
                        policies,
                        plans,
                        rounds::after_rounds(plans, start, (count - 1) as nat),
                    )
                }
            }),
            result matches Err(error) ==> (error@ is IterationLimit ==> {
                let plans = old(self).plans();
                let start = old(store).pairs();
                let reached = rounds::after_rounds(plans, start, max_iterations as nat);
                &&& error@->limit == max_iterations
                &&& all_ready(*old(store), plans) ==> {
                    &&& final(store).pairs() == reached
                    &&& goes_on(old(self).ids(), plans, start, (max_iterations + 1) as nat)
                    &&& error@->remaining_delta_rows == execution_general::capped(
                        pair_count(reached, old(self).ids(), old(self).ids().len() as int),
                    )
                }
            }),
            delta_failure(*old(store), old(self).ids(), 0) matches Some(error) ==> {
                &&& result is Err
                &&& result->Err_0@ == GenericErrorView::Store(error)
                &&& *final(store) == *old(store)
            },
            all_ready(*old(store), old(self).plans()) && succeeds(
                old(self).ids(),
                old(self).plans(),
                old(store).pairs(),
                max_iterations as nat,
            ) ==> result is Ok,
            all_ready(*old(store), old(self).plans()) && exhausts(
                old(self).ids(),
                old(self).plans(),
                old(store).pairs(),
                max_iterations as nat,
            ) ==> result is Err && result->Err_0@ is IterationLimit,
    {
        let ghost plans = self.plans();
        let ghost ids = self.ids();
        let ghost start = store.pairs();
        let ghost first = *store;
        let ghost exact = all_ready(first, plans);
        let mut iterations: usize = 0;
        let mut total_new_rows: usize = 0;
        let mut placements: Vec<(RelationId, IterationPlacements)> = Vec::new();
        proof {
            self.lemma_shape();
            lemma_kinds_same(first);
            assert(goes_on(ids, plans, start, 0)) by {
                reveal(goes_on);
            }
        }
        loop
            invariant
                self.wf(),
                store.wf(),
                self.is_current(*store),
                self.ids() == ids,
                self.plans() == plans,
                can_unite(*store, plans),
                keeps_kinds(first, *store),
                old(self).ids() == ids,
                old(self).plans() == plans,
                first == *old(store),
                start == first.pairs(),
                exact == all_ready(first, plans),
                forall|i: int| 0 <= i < ids.len() ==> rounds::has_rule(plans, #[trigger] ids[i]),
                forall|id: RelationId|
                    !rounds::has_rule(plans, id) ==> #[trigger] store.get(id) == first.get(id),
                iterations <= max_iterations,
                iterations == 0 ==> *store == first,
                iterations > 0 ==> delta_failure(first, ids, 0) is None,
                iterations > 0 ==> all_numbered(first, plans),
                iterations > 0 ==> forall|failure: Option<GenericErrorView>, unchanged: bool|
                    #[trigger]
                    tells_key(first, plans, failure, unchanged),
                if iterations == 0 {
                    placements@.len() == 0
                } else {
                    names_targets(placements@, plans)
                },
                exact ==> {
                    &&& store.pairs() == rounds::after_rounds(plans, start, iterations as nat)
                    &&& all_ready(*store, plans)
                    &&& goes_on(ids, plans, start, iterations as nat)
                    &&& total_new_rows == execution_general::capped(
                        total_count(plans, start, iterations as nat),
                    )
                    &&& iterations > 0 ==> {
                        &&& all_by_processor(*store, plans)
                        &&& placements@ == round_placements(
                            policies,
                            plans,
                            rounds::after_rounds(plans, start, (iterations - 1) as nat),
                        )
                    }
                },
            ensures
                forall|j: int|
                    0 <= j < ids.len() ==> delta_problem(*store, #[trigger] ids[j]) is None
                        && store.get(ids[j])->0.delta->0.rows() == 0,
                delta_failure(first, ids, 0) is None,
                iterations == 0 ==> !finds_delta(first, ids, 0),
                exact ==> rounds::is_settled(
                    ids,
                    rounds::after_rounds(plans, start, iterations as nat),
                ),
            decreases max_iterations - iterations,
        {
            let ghost now = rounds::after_rounds(plans, start, iterations as nat);
            let ghost here = *store;
            proof {
                if exact {
                    lemma_pair_count(here, plans, ids, ids.len() as int);
                }
            }
            proof {
                if exact {
                    lemma_search(here, now, ids, 0);
                    assert(!finds_delta(here, ids, 0) <==> rounds::is_settled(ids, now));
                }
            }
            let found = match self.has_delta(store) {
                Ok(found) => found,
                Err(error) => {
                    return Err(GenericExecutionError::Store(error));
                },
            };
            if !found {
                proof {
                    lemma_nothing_found(here, ids, 0);
                }
                break ;
            }
            proof {
                if exact {
                    lemma_goes_on(ids, plans, start, iterations as nat);
                }
            }
            if iterations >= max_iterations {
                proof {
                    if exact {
                        lemma_goes_on_fails(ids, plans, start, max_iterations as nat);
                    }
                }
                return match self.delta_rows(store) {
                    Ok(rows) => Err(
                        GenericExecutionError::IterationLimit {
                            limit: max_iterations,
                            remaining_delta_rows: rows,
                        },
                    ),
                    Err(error) => Err(GenericExecutionError::Store(error)),
                };
            }
            let done = self.round(store, policies);
            proof {
                lemma_kinds_chain(first, here, *store);
            }
            match done {
                Ok((new_rows, places)) => {
                    proof {
                        if iterations == 0 {
                            assert forall|failure: Option<GenericErrorView>, unchanged: bool|
                                #[trigger]
                                tells_key(first, plans, failure, unchanged) by {
                                lemma_tells_key(first, plans, failure, unchanged);
                            }
                        }
                    }
                    total_new_rows = total_new_rows.saturating_add(new_rows);
                    placements = places;
                },
                Err(error) => {
                    proof {
                        if exact {
                            lemma_unfit_fails(
                                ids,
                                plans,
                                start,
                                iterations as nat,
                                max_iterations as nat,
                            );
                        }
                    }
                    return Err(error);
                },
            }
            iterations += 1;
        }
        proof {
            if exact {
                lemma_settled_in_time(
                    ids,
                    plans,
                    start,
                    iterations as nat,
                    max_iterations as nat,
                );
            }
        }
        let mut relation_rows: Vec<(RelationId, usize)> = Vec::new();
        let mut i: usize = 0;
        while i < self.relations.len()
            invariant
                i <= self.relations@.len(),
                self.ids() == ids,
                self.relations@ == ids,
                forall|j: int|
                    0 <= j < ids.len() ==> delta_problem(*store, #[trigger] ids[j]) is None
                        && store.get(ids[j])->0.delta->0.rows() == 0,
                relation_rows@.len() == i,
                forall|j: int|
                    0 <= j < i ==> (#[trigger] relation_rows@[j]).0 == ids[j]
                        && relation_rows@[j].1 == store.get(ids[j])->0.full.rows(),
            decreases self.relations@.len() - i,
        {
            let id = self.relations[i];
            assert(delta_problem(*store, ids[i as int]) is None);
            match store.full(id) {
                Ok(full) => relation_rows.push((id, full.len())),
                Err(error) => {
                    return Err(GenericExecutionError::Store(error));
                },
            }
            i += 1;
        }
        Ok(SccSummary { iterations, total_new_rows, relation_rows, last_placements: placements })
    }
}

proof fn lemma_kinds_same(store: RelationStore)
    ensures
        keeps_kinds(store, store),
{
    reveal(keeps_kinds);
}

proof fn lemma_goes_on(
    ids: Seq<RelationId>,
    rules: Seq<RecursiveRulePlan>,
    relations: rounds::Relations,
    count: nat,
)
    requires
        goes_on(ids, rules, relations, count),
        !rounds::is_settled(ids, rounds::after_rounds(rules, relations, count)),
    ensures
        goes_on(ids, rules, relations, count + 1),
{
    reveal(goes_on);
    assert forall|k: nat| k < count + 1 implies !rounds::is_settled(
        ids,
        #[trigger] rounds::after_rounds(rules, relations, k),
    ) by {
        if k < count {
        }
    }
}

proof fn lemma_kinds_chain(a: RelationStore, b: RelationStore, c: RelationStore)
    requires
        keeps_kinds(a, b),
        keeps_kinds(b, c),
    ensures
        keeps_kinds(a, c),
{
    reveal(keeps_kinds);
    assert forall|id: RelationId|
        match #[trigger] c.get(id) {
            None => a.get(id) is None,
            Some(relation) => {
                &&& a.get(id) is Some
                &&& relation.delta is Some <==> a.get(id)->0.delta is Some
                &&& a.get(id)->0.full.contents().len() >= 2 ==> relation.full.contents().len() >= 2
            },
        } by {
        let seen = b.get(id);
    }
}

proof fn lemma_no_problem(kinds: RelationKinds, ids: Seq<RelationId>)
    ensures
        first_problem(kinds, ids) is None <==> forall|i: int|
            0 <= i < ids.len() ==> kinds(#[trigger] ids[i]) == Some(true),
    decreases ids.len(),
{
    if ids.len() > 0 {
        let rest = ids.drop_last();
        lemma_no_problem(kinds, rest);
        if first_problem(kinds, ids) is None {
            assert forall|i: int| 0 <= i < ids.len() implies kinds(#[trigger] ids[i]) == Some(
                true,
            ) by {
                if i < rest.len() {
                    assert(rest[i] == ids[i]);
                }
            }
        }
        if forall|i: int| 0 <= i < ids.len() ==> kinds(#[trigger] ids[i]) == Some(true) {
            assert forall|i: int| 0 <= i < rest.len() implies kinds(#[trigger] rest[i]) == Some(
                true,
            ) by {
                assert(rest[i] == ids[i]);
            }
            assert(kinds(ids[ids.len() - 1]) == Some(true));
        }
    }
}

proof fn lemma_no_rule_problem(
    kinds: RelationKinds,
    ids: Seq<RelationId>,
    rules: Seq<RecursiveRulePlan>,
    count: int,
)
    requires
        0 <= count <= rules.len(),
    ensures
        first_rule_problem(kinds, ids, rules, count) is None <==> forall|i: int|
            0 <= i < count ==> {
                &&& kinds((#[trigger] rules[i]).delta_input) is Some
                &&& kinds(rules[i].right_input) is Some
                &&& ids.contains(rules[i].target)
            },
    decreases count,
{
    if count > 0 {
        lemma_no_rule_problem(kinds, ids, rules, count - 1);
        let last = rules[count - 1];
    }
}

proof fn lemma_none_missing(rules: Seq<RecursiveRulePlan>, ids: Seq<RelationId>)
    ensures
        first_missing(rules, ids) is None <==> forall|i: int|
            0 <= i < ids.len() ==> rounds::has_rule(rules, #[trigger] ids[i]),
    decreases ids.len(),
{
    if ids.len() > 0 {
        let rest = ids.drop_last();
        lemma_none_missing(rules, rest);
        if first_missing(rules, ids) is None {
            assert forall|i: int| 0 <= i < ids.len() implies rounds::has_rule(
                rules,
                #[trigger] ids[i],
            ) by {
                if i < rest.len() {
                    assert(rest[i] == ids[i]);
                }
            }
        }
        if forall|i: int| 0 <= i < ids.len() ==> rounds::has_rule(rules, #[trigger] ids[i]) {
            assert forall|i: int| 0 <= i < rest.len() implies rounds::has_rule(
                rules,
                #[trigger] rest[i],
            ) by {
                assert(rest[i] == ids[i]);
            }
            assert(rounds::has_rule(rules, ids[ids.len() - 1]));
        }
    }
}

/// A component can be compiled exactly where it has relations, each of them has newest rows and one
/// or more rules, and every rule derives one of them from relations that there are.
pub proof fn law_component_compiles(
    kinds: RelationKinds,
    ids: Seq<RelationId>,
    rules: Seq<RecursiveRulePlan>,
)
    ensures
        component_problem(kinds, ids, rules) is None <==> {
            &&& ids.len() > 0
            &&& forall|i: int|
                0 <= i < ids.len() ==> kinds(#[trigger] ids[i]) == Some(true) && rounds::has_rule(
                    rules,
                    ids[i],
                )
            &&& forall|i: int|
                0 <= i < rules.len() ==> {
                    &&& kinds((#[trigger] rules[i]).delta_input) is Some
                    &&& kinds(rules[i].right_input) is Some
                    &&& ids.contains(rules[i].target)
                }
        },
{
    lemma_no_problem(kinds, ids);
    lemma_no_rule_problem(kinds, ids, rules, rules.len() as int);
    lemma_none_missing(rules, ids);
}

/// The component that extends paths by edges.
pub fn transitive_closure_scc(path: RelationId, edge: RelationId) -> (plan: RecursiveSccPlan)
    ensures
        plan.relations@ == seq![path],
        plan.rules@.len() == 1,
        plan.rules@[0].target == path,
        plan.rules@[0].delta_input == path,
        plan.rules@[0].right_input == edge,
        plan.rules@[0].join == recursion::path_join(),
        is_binary_rule(plan.rules@[0]),
{
    let mut relations: Vec<RelationId> = Vec::new();
    relations.push(path);
    let mut rules: Vec<RecursiveRulePlan> = Vec::new();
    rules.push(
        RecursiveRulePlan {
            target: path,
            delta_input: path,
            right_input: edge,
            join: join_plan(),
            distinct: distinct_plan(),
            anti_join: anti_join_plan(),
            union: union_plan(),
        },
    );
    let plan = RecursiveSccPlan { relations, rules };
    assert(plan.relations@ =~= seq![path]);
    plan
}

} // verus!
