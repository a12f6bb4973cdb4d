//! Interning of predicates and values into dense, stable identifiers.
use vstd::prelude::*;
use vstd::string::*;

use crate::ast;
use crate::ast::ConstantView;
use crate::text;
use crate::text::{decimal_text, same_text};

verus! {

#[derive(Debug, Clone, Copy, PartialEq, Eq, Hash, PartialOrd, Ord, Structural)]
pub struct PredicateId(pub u32);

#[derive(Debug, Clone, Copy, PartialEq, Eq, Hash, PartialOrd, Ord, Structural)]
pub struct ValueId(pub u32);

/// A value of a program: a number, a string or a symbol.
#[derive(Debug, Clone, PartialEq, Eq, Hash)]
pub enum InternedValue {
    U32(u32),
    String(String),
    Symbol(String),
}

impl View for InternedValue {
    type V = ConstantView;

    open spec fn view(&self) -> ConstantView {
        match self {
            InternedValue::U32(value) => ConstantView::U32(*value),
            InternedValue::String(value) => ConstantView::String(value@),
            InternedValue::Symbol(value) => ConstantView::Symbol(value@),
        }
    }
}

impl From<u32> for InternedValue {
    fn from(value: u32) -> (r: Self) {
        InternedValue::U32(value)
    }
}

impl vstd::std_specs::convert::FromSpecImpl<u32> for InternedValue {
    open spec fn obeys_from_spec() -> bool {
        true
    }

    open spec fn from_spec(value: u32) -> Self {
        InternedValue::U32(value)
    }
}

impl From<String> for InternedValue {
    fn from(value: String) -> (r: Self) {
        InternedValue::Symbol(value)
    }
}

impl vstd::std_specs::convert::FromSpecImpl<String> for InternedValue {
    open spec fn obeys_from_spec() -> bool {
        true
    }

    open spec fn from_spec(value: String) -> Self {
        InternedValue::Symbol(value)
    }
}

impl From<&str> for InternedValue {
    fn from(value: &str) -> (r: Self)
        ensures
            r@ == ConstantView::Symbol(value@),
    {
        InternedValue::Symbol(value.to_owned())
    }
}

impl vstd::std_specs::convert::FromSpecImpl<&str> for InternedValue {
    open spec fn obeys_from_spec() -> bool {
        false
    }

    open spec fn from_spec(value: &str) -> Self {
        arbitrary()
    }
}

impl InternedValue {
    /// A value equal to this one.
    pub fn copied(&self) -> (copy: Self)
        ensures
            copy@ == self@,
    {
        match self {
            InternedValue::U32(value) => InternedValue::U32(*value),
            InternedValue::String(value) => InternedValue::String(value.clone()),
            InternedValue::Symbol(value) => InternedValue::Symbol(value.clone()),
        }
    }

    /// Whether two values are equal.
    pub fn same(&self, other: &Self) -> (same: bool)
        ensures
            same == (self@ == other@),
    {
        match (self, other) {
            (InternedValue::U32(a), InternedValue::U32(b)) => *a == *b,
            (InternedValue::String(a), InternedValue::String(b)) => same_text(
                a.as_str(),
                b.as_str(),
            ),
            (InternedValue::Symbol(a), InternedValue::Symbol(b)) => same_text(
                a.as_str(),
                b.as_str(),
            ),
            _ => false,
        }
    }
}

/// A predicate, seen as plain data: its name, and its arity where known.
pub type PredicateView = (Seq<char>, Option<usize>);

#[derive(Debug, Clone, PartialEq, Eq)]
pub struct PredicateMetadata {
    pub name: String,
    pub arity: Option<usize>,
}

impl View for PredicateMetadata {
    type V = PredicateView;

    open spec fn view(&self) -> PredicateView {
        (self.name@, self.arity)
    }
}

/// A catalog failure, seen as plain data.
#[verifier::ext_equal]
pub enum CatalogErrorView {
    IdSpaceExhausted { kind: Seq<char> },
    ArityConflict { predicate: Seq<char>, existing: usize, declared: usize },
}

#[derive(Debug, Clone, PartialEq, Eq)]
pub enum CatalogError {
    IdSpaceExhausted { kind: &'static str },
    ArityConflict { predicate: String, existing: usize, declared: usize },
}

impl View for CatalogError {
    type V = CatalogErrorView;

    open spec fn view(&self) -> CatalogErrorView {
        match self {
            CatalogError::IdSpaceExhausted { kind } => CatalogErrorView::IdSpaceExhausted {
                kind: kind@,
            },
            CatalogError::ArityConflict { predicate, existing, declared } => {
                CatalogErrorView::ArityConflict {
                    predicate: predicate@,
                    existing: *existing,
                    declared: *declared,
                }
            },
        }
    }
}

/// What a catalog failure says.
pub open spec fn catalog_error_text(error: CatalogErrorView) -> Seq<char> {
    match error {
        CatalogErrorView::IdSpaceExhausted { kind } => kind + " ID space is exhausted"@,
        CatalogErrorView::ArityConflict { predicate, existing, declared } => "predicate "@
            + predicate + " already has arity "@ + text::decimal(existing as nat) + ", not "@ + text::decimal(
            declared as nat,
        ),
    }
}

impl CatalogError {
    pub fn message(&self) -> (message: String)
        ensures
            message@ == catalog_error_text(self@),
    {
        match self {
            CatalogError::IdSpaceExhausted { kind } => {
                let mut message = String::new();
                message.append(kind);
                assert(Seq::<char>::empty() + kind@ =~= kind@);
                message.append(" ID space is exhausted");
                message
            },
            CatalogError::ArityConflict { predicate, existing, declared } => {
                let mut message = "predicate ".to_owned();
                message.append(predicate.as_str());
                message.append(" already has arity ");
                message.append(decimal_text(*existing).as_str());
                message.append(", not ");
                message.append(decimal_text(*declared).as_str());
                message
            },
        }
    }
}

/// The position of a predicate name.
pub open spec fn find_name(predicates: Seq<PredicateView>, name: Seq<char>) -> Option<int>
    decreases predicates.len(),
{
    if predicates.len() == 0 {
        None
    } else {
        match find_name(predicates.drop_last(), name) {
            Some(i) => Some(i),
            None => if predicates.last().0 == name {
                Some(predicates.len() - 1)
            } else {
                None
            },
        }
    }
}

/// The position of a value.
pub open spec fn find_value(values: Seq<ConstantView>, value: ConstantView) -> Option<int>
    decreases values.len(),
{
    if values.len() == 0 {
        None
    } else {
        match find_value(values.drop_last(), value) {
            Some(i) => Some(i),
            None => if values.last() == value {
                Some(values.len() - 1)
            } else {
                None
            },
        }
    }
}

/// Predicates with a name among them, and its position: where it was, or at the end.
pub open spec fn with_name(
    predicates: Seq<PredicateView>,
    name: Seq<char>,
) -> Result<(Seq<PredicateView>, int), CatalogErrorView> {
    match find_name(predicates, name) {
        Some(i) => Ok((predicates, i)),
        None => if predicates.len() > u32::MAX {
            Err(CatalogErrorView::IdSpaceExhausted { kind: "predicate"@ })
        } else {
            Ok((predicates.push((name, None)), predicates.len() as int))
        },
    }
}

/// Predicates with a name of known arity among them, and its position.
pub open spec fn with_arity(
    predicates: Seq<PredicateView>,
    name: Seq<char>,
    arity: usize,
) -> Result<(Seq<PredicateView>, int), CatalogErrorView> {
    match with_name(predicates, name) {
        Err(error) => Err(error),
        Ok((all, i)) => match all[i].1 {
            Some(existing) => if existing == arity {
                Ok((all, i))
            } else {
                Err(
                    CatalogErrorView::ArityConflict {
                        predicate: name,
                        existing,
                        declared: arity,
                    },
                )
            },
            None => Ok((all.update(i, (name, Some(arity))), i)),
        },
    }
}

/// Values with a value among them, and its position: where it was, or at the end.
pub open spec fn with_value(
    values: Seq<ConstantView>,
    value: ConstantView,
) -> Result<(Seq<ConstantView>, int), CatalogErrorView> {
    match find_value(values, value) {
        Some(i) => Ok((values, i)),
        None => if values.len() > u32::MAX {
            Err(CatalogErrorView::IdSpaceExhausted { kind: "value"@ })
        } else {
            Ok((values.push(value), values.len() as int))
        },
    }
}

/// Whether no name occurs twice.
pub open spec fn distinct_names(predicates: Seq<PredicateView>) -> bool {
    forall|i: int, j: int|
        #![trigger predicates[i], predicates[j]]
        0 <= i < j < predicates.len() ==> predicates[i].0 != predicates[j].0
}

pub proof fn lemma_find_name(predicates: Seq<PredicateView>, name: Seq<char>)
    ensures
        match find_name(predicates, name) {
            Some(i) => 0 <= i < predicates.len() && predicates[i].0 == name && forall|j: int|
                0 <= j < i ==> (#[trigger] predicates[j]).0 != name,
            None => forall|j: int|
                0 <= j < predicates.len() ==> (#[trigger] predicates[j]).0 != name,
        },
    decreases predicates.len(),
{
    if predicates.len() > 0 {
        let rest = predicates.drop_last();
        lemma_find_name(rest, name);
        assert forall|j: int| 0 <= j < rest.len() implies #[trigger] predicates[j] == rest[j] by {}
    }
}

pub proof fn lemma_find_value(values: Seq<ConstantView>, value: ConstantView)
    ensures
        match find_value(values, value) {
            Some(i) => 0 <= i < values.len() && values[i] == value && forall|j: int|
                0 <= j < i ==> (#[trigger] values[j]) != value,
            None => forall|j: int| 0 <= j < values.len() ==> (#[trigger] values[j]) != value,
        },
    decreases values.len(),
{
    if values.len() > 0 {
        let rest = values.drop_last();
        lemma_find_value(rest, value);
        assert forall|j: int| 0 <= j < rest.len() implies #[trigger] values[j] == rest[j] by {}
    }
}

/// Predicate names with their identifiers, which are their positions.
#[derive(Debug)]
pub struct PredicateCatalog {
    predicates: Vec<PredicateMetadata>,
}

impl View for PredicateCatalog {
    type V = Seq<PredicateView>;

    closed spec fn view(&self) -> Seq<PredicateView> {
        ast::views(self.predicates@)
    }
}

impl Default for PredicateCatalog {
    fn default() -> (catalog: Self)
        ensures
            catalog@ == Seq::<PredicateView>::empty(),
            catalog.wf(),
    {
        PredicateCatalog::new()
    }
}

impl PredicateCatalog {
    /// Whether every identifier fits and no name occurs twice.
    pub open spec fn wf(&self) -> bool {
        &&& distinct_names(self@)
        &&& self@.len() <= u32::MAX + 1
        &&& self@.len() <= usize::MAX
    }

    pub fn new() -> (catalog: Self)
        ensures
            catalog@ == Seq::<PredicateView>::empty(),
            catalog.wf(),
    {
        let catalog = PredicateCatalog { predicates: Vec::new() };
        assert(catalog@ =~= Seq::<PredicateView>::empty());
        catalog
    }

    fn position(&self, name: &str) -> (r: Option<usize>)
        ensures
            match r {
                Some(i) => find_name(self@, name@) == Some(i as int) && i < self@.len(),
                None => find_name(self@, name@) is None,
            },
    {
        let ghost all = self@;
        let mut i: usize = 0;
        assert(all.take(0) =~= Seq::empty());
        while i < self.predicates.len()
            invariant
                i <= self.predicates@.len(),
                all == self@,
                find_name(all.take(i as int), name@) is None,
            decreases self.predicates@.len() - i,
        {
            assert(all.take(i + 1).drop_last() =~= all.take(i as int));
            assert(all[i as int] == self.predicates@[i as int]@);
            if same_text(self.predicates[i].name.as_str(), name) {
                proof {
                    lemma_find_name(all.take(i as int), name@);
                    lemma_find_name(all, name@);
                    assert forall|j: int| 0 <= j < i implies (#[trigger] all[j]).0 != name@ by {
                        assert(all.take(i as int)[j] == all[j]);
                    }
                }
                return Some(i);
            }
            i += 1;
        }
        assert(all.take(all.len() as int) =~= all);
        None
    }

    /// The identifier of a name, new if the name is.
    pub fn intern(&mut self, name: &str) -> (result: Result<PredicateId, CatalogError>)
        requires
            old(self).wf(),
        ensures
            final(self).wf(),
            match with_name(old(self)@, name@) {
                Ok((all, i)) => result is Ok && result->Ok_0.0 == i && final(self)@ == all,
                Err(error) => result is Err && result->Err_0@ == error && final(self)@ == old(
                    self,
                )@,
            },
    {
        proof {
            lemma_find_name(self@, name@);
        }
        match self.position(name) {
            Some(i) => Ok(PredicateId(i as u32)),
            None => {
                let count: usize = self.predicates.len();
                if count > u32::MAX as usize {
                    return Err(CatalogError::IdSpaceExhausted { kind: "predicate" });
                }
                let ghost before = self@;
                self.predicates.push(PredicateMetadata { name: name.to_owned(), arity: None });
                assert(self@ =~= before.push((name@, None)));
                assert(self.predicates.len() == self@.len());
                Ok(PredicateId(count as u32))
            },
        }
    }

    /// The identifier of a name, which from then on has an arity.
    pub fn declare(&mut self, name: &str, arity: usize) -> (result: Result<
        PredicateId,
        CatalogError,
    >)
        requires
            old(self).wf(),
        ensures
            final(self).wf(),
            match with_arity(old(self)@, name@, arity) {
                Ok((all, i)) => result is Ok && result->Ok_0.0 == i && final(self)@ == all,
                Err(error) => result is Err && result->Err_0@ == error && final(self)@ == old(
                    self,
                )@,
            },
    {
        proof {
            lemma_find_name(self@, name@);
        }
        let id = match self.intern(name) {
            Ok(id) => id,
            Err(error) => {
                return Err(error);
            },
        };
        let index: usize = id.0 as usize;
        let ghost all = self@;
        assert(all[index as int] == self.predicates@[index as int]@);
        match self.predicates[index].arity {
            Some(existing) => {
                if existing == arity {
                    Ok(id)
                } else {
                    Err(
                        CatalogError::ArityConflict {
                            predicate: name.to_owned(),
                            existing,
                            declared: arity,
                        },
                    )
                }
            },
            None => {
                self.predicates[index].arity = Some(arity);
                assert(self@ =~= all.update(index as int, (name@, Some(arity))));
                Ok(id)
            },
        }
    }

    pub fn id(&self, name: &str) -> (id: Option<PredicateId>)
        requires
            self.wf(),
        ensures
            match find_name(self@, name@) {
                Some(i) => id == Some(PredicateId(i as u32)) && 0 <= i < self@.len(),
                None => id is None,
            },
    {
        match self.position(name) {
            Some(i) => Some(PredicateId(i as u32)),
            None => None,
        }
    }

    pub fn get(&self, id: PredicateId) -> (metadata: Option<&PredicateMetadata>)
        ensures
            metadata is Some <==> (id.0 as int) < self@.len(),
            metadata matches Some(found) ==> found@ == self@[id.0 as int],
    {
        let index: usize = id.0 as usize;
        if index < self.predicates.len() {
            Some(&self.predicates[index])
        } else {
            None
        }
    }

    pub fn len(&self) -> (length: usize)
        ensures
            length == self@.len(),
    {
        self.predicates.len()
    }

    pub fn is_empty(&self) -> (empty: bool)
        ensures
            empty == (self@.len() == 0),
    {
        self.predicates.len() == 0
    }
}

/// Values with their identifiers, which are their positions.
#[derive(Debug)]
pub struct ValueCatalog {
    values: Vec<InternedValue>,
}

impl View for ValueCatalog {
    type V = Seq<ConstantView>;

    closed spec fn view(&self) -> Seq<ConstantView> {
        ast::views(self.values@)
    }
}

impl Default for ValueCatalog {
    fn default() -> (catalog: Self)
        ensures
            catalog@ == Seq::<ConstantView>::empty(),
            catalog.wf(),
    {
        ValueCatalog::new()
    }
}

impl ValueCatalog {
    /// Whether every identifier fits and no value occurs twice.
    pub open spec fn wf(&self) -> bool {
        &&& self@.no_duplicates()
        &&& self@.len() <= u32::MAX + 1
        &&& self@.len() <= usize::MAX
    }

    pub fn new() -> (catalog: Self)
        ensures
            catalog@ == Seq::<ConstantView>::empty(),
            catalog.wf(),
    {
        let catalog = ValueCatalog { values: Vec::new() };
        assert(catalog@ =~= Seq::<ConstantView>::empty());
        catalog
    }

    fn position(&self, value: &InternedValue) -> (r: Option<usize>)
        ensures
            match r {
                Some(i) => find_value(self@, value@) == Some(i as int) && i < self@.len(),
                None => find_value(self@, value@) is None,
            },
    {
        let ghost all = self@;
        let mut i: usize = 0;
        assert(all.take(0) =~= Seq::empty());
        while i < self.values.len()
            invariant
                i <= self.values@.len(),
                all == self@,
                find_value(all.take(i as int), value@) is None,
            decreases self.values@.len() - i,
        {
            assert(all.take(i + 1).drop_last() =~= all.take(i as int));
            assert(all[i as int] == self.values@[i as int]@);
            if self.values[i].same(value) {
                proof {
                    lemma_find_value(all.take(i as int), value@);
                    lemma_find_value(all, value@);
                    assert forall|j: int| 0 <= j < i implies (#[trigger] all[j]) != value@ by {
                        assert(all.take(i as int)[j] == all[j]);
                    }
                }
                return Some(i);
            }
            i += 1;
        }
        assert(all.take(all.len() as int) =~= all);
        None
    }

    /// The identifier of a value, new if the value is.
    pub fn intern(&mut self, value: InternedValue) -> (result: Result<ValueId, CatalogError>)
        requires
            old(self).wf(),
        ensures
            final(self).wf(),
            match with_value(old(self)@, value@) {
                Ok((all, i)) => result is Ok && result->Ok_0.0 == i && final(self)@ == all,
                Err(error) => result is Err && result->Err_0@ == error && final(self)@ == old(
                    self,
                )@,
            },
    {
        proof {
            lemma_find_value(self@, value@);
        }
        match self.position(&value) {
            Some(i) => Ok(ValueId(i as u32)),
            None => {
                let count: usize = self.values.len();
                if count > u32::MAX as usize {
                    return Err(CatalogError::IdSpaceExhausted { kind: "value" });
                }
                let ghost before = self@;
                let ghost view = value@;
                self.values.push(value);
                assert(self@ =~= before.push(view));
                assert(self.values.len() == self@.len());
                Ok(ValueId(count as u32))
            },
        }
    }

    pub fn id(&self, value: &InternedValue) -> (id: Option<ValueId>)
        requires
            self.wf(),
        ensures
            match find_value(self@, value@) {
                Some(i) => id == Some(ValueId(i as u32)) && 0 <= i < self@.len(),
                None => id is None,
            },
    {
        match self.position(value) {
            Some(i) => Some(ValueId(i as u32)),
            None => None,
        }
    }

    pub fn get(&self, id: ValueId) -> (value: Option<&InternedValue>)
        ensures
            value is Some <==> (id.0 as int) < self@.len(),
            value matches Some(found) ==> found@ == self@[id.0 as int],
    {
        let index: usize = id.0 as usize;
        if index < self.values.len() {
            Some(&self.values[index])
        } else {
            None
        }
    }

    pub fn len(&self) -> (length: usize)
        ensures
            length == self@.len(),
    {
        self.values.len()
    }

    pub fn is_empty(&self) -> (empty: bool)
        ensures
            empty == (self@.len() == 0),
    {
        self.values.len() == 0
    }
}

/// The predicates and the values of a program.
#[derive(Debug)]
pub struct ProgramCatalog {
    pub predicates: PredicateCatalog,
    pub values: ValueCatalog,
}

/// The contents of a catalog, seen as plain data.
#[verifier::ext_equal]
pub struct CatalogView {
    pub predicates: Seq<PredicateView>,
    pub values: Seq<ConstantView>,
}

impl View for ProgramCatalog {
    type V = CatalogView;

    open spec fn view(&self) -> CatalogView {
        CatalogView { predicates: self.predicates@, values: self.values@ }
    }
}

impl Default for ProgramCatalog {
    fn default() -> (catalog: Self)
        ensures
            catalog@ == (CatalogView { predicates: Seq::empty(), values: Seq::empty() }),
            catalog.wf(),
    {
        ProgramCatalog::new()
    }
}

impl ProgramCatalog {
    pub open spec fn wf(&self) -> bool {
        self.predicates.wf() && self.values.wf()
    }

    pub fn new() -> (catalog: Self)
        ensures
            catalog@ == (CatalogView { predicates: Seq::empty(), values: Seq::empty() }),
            catalog.wf(),
    {
        ProgramCatalog { predicates: PredicateCatalog::new(), values: ValueCatalog::new() }
    }
}

/// Interning a name again gives the same identifier and changes nothing, and later names do not
/// change it.
pub proof fn law_predicate_ids_are_stable(
    predicates: Seq<PredicateView>,
    name: Seq<char>,
    other: Seq<char>,
)
    requires
        with_name(predicates, name) is Ok,
        with_name(with_name(predicates, name)->Ok_0.0, other) is Ok,
    ensures
        ({
            let (first, id) = with_name(predicates, name)->Ok_0;
            let (second, _) = with_name(first, other)->Ok_0;
            with_name(second, name) == Ok::<(Seq<PredicateView>, int), CatalogErrorView>(
                (second, id),
            )
        }),
{
    let (first, id) = with_name(predicates, name)->Ok_0;
    let (second, _) = with_name(first, other)->Ok_0;
    lemma_find_name(predicates, name);
    lemma_find_name(first, name);
    lemma_find_name(first, other);
    lemma_find_name(second, name);
    assert(first[id].0 == name);
    assert(second[id] == first[id]);
    assert forall|j: int| 0 <= j < id implies (#[trigger] second[j]).0 != name by {
        assert(second[j] == first[j]);
        if j < predicates.len() {
            assert(first[j] == predicates[j]);
        }
    }
    let found = find_name(second, name)->0;
    if id < found {
        assert(second[id].0 != name);
    }
    if found < id {
        assert(second[found].0 != name);
    }
}

/// Once a predicate has an arity, declaring it never changes it: the same arity is accepted, any
/// other is refused.
pub proof fn law_arity_is_fixed(
    predicates: Seq<PredicateView>,
    name: Seq<char>,
    first: usize,
    second: usize,
)
    requires
        with_arity(predicates, name, first) is Ok,
    ensures
        ({
            let (all, id) = with_arity(predicates, name, first)->Ok_0;
            &&& all[id] == (name, Some(first))
            &&& with_arity(all, name, second) == if second == first {
                Ok::<(Seq<PredicateView>, int), CatalogErrorView>((all, id))
            } else {
                Err::<(Seq<PredicateView>, int), CatalogErrorView>(
                    CatalogErrorView::ArityConflict {
                        predicate: name,
                        existing: first,
                        declared: second,
                    },
                )
            }
        }),
{
    let (interned, at) = with_name(predicates, name)->Ok_0;
    let (all, id) = with_arity(predicates, name, first)->Ok_0;
    lemma_find_name(predicates, name);
    lemma_find_name(all, name);
    assert(interned[at].0 == name);
    assert(all[id] == (name, Some(first)));
    assert forall|j: int| 0 <= j < id implies (#[trigger] all[j]).0 != name by {
        assert(all[j] == interned[j]);
        if j < predicates.len() {
            assert(interned[j] == predicates[j]);
        }
    }
    let found = find_name(all, name)->0;
    if id < found {
        assert(all[id].0 != name);
    }
    if found < id {
        assert(all[found].0 != name);
    }
}

/// Interning a value again gives the same identifier and changes nothing, and later values do not
/// change it.
pub proof fn law_value_ids_are_stable(
    values: Seq<ConstantView>,
    value: ConstantView,
    other: ConstantView,
)
    requires
        with_value(values, value) is Ok,
        with_value(with_value(values, value)->Ok_0.0, other) is Ok,
    ensures
        ({
            let (first, id) = with_value(values, value)->Ok_0;
            let (second, _) = with_value(first, other)->Ok_0;
            with_value(second, value) == Ok::<(Seq<ConstantView>, int), CatalogErrorView>(
                (second, id),
            )
        }),
{
    let (first, id) = with_value(values, value)->Ok_0;
    let (second, _) = with_value(first, other)->Ok_0;
    lemma_find_value(values, value);
    lemma_find_value(first, value);
    lemma_find_value(first, other);
    lemma_find_value(second, value);
    assert(first[id] == value);
    assert(second[id] == first[id]);
    assert forall|j: int| 0 <= j < id implies (#[trigger] second[j]) != value by {
        assert(second[j] == first[j]);
        if j < values.len() {
            assert(first[j] == values[j]);
        }
    }
    let found = find_value(second, value)->0;
    if id < found {
        assert(second[id] != value);
    }
    if found < id {
        assert(second[found] != value);
    }
}

} // verus!
