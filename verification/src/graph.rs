//! Predicate dependencies, walks along them, and what walks say about recursion and negation.
use vstd::prelude::*;

use crate::catalog::PredicateId;

verus! {

#[derive(Debug, Clone, Copy, PartialEq, Eq, Hash, Structural)]
pub enum DependencyKind {
    Positive,
    Negative,
}

/// The head predicate of a rule depends on each predicate in the rule's body.
#[derive(Debug, Clone, Copy, PartialEq, Eq, Hash, Structural)]
pub struct Dependency {
    pub head: PredicateId,
    pub body: PredicateId,
    pub kind: DependencyKind,
}

/// A group of predicates whose completed relations may be consumed by later
/// strata. Negative dependencies must always point to an earlier stratum.
#[derive(Debug, Clone, PartialEq, Eq)]
pub struct Stratum {
    pub predicates: Vec<PredicateId>,
}

/// Whether `walk` leads from one predicate to another, each step along a dependency.
pub open spec fn is_walk(
    deps: Seq<Dependency>,
    walk: Seq<Dependency>,
    from: PredicateId,
    to: PredicateId,
) -> bool
    decreases walk.len(),
{
    if walk.len() == 0 {
        from == to
    } else {
        &&& deps.contains(walk[0])
        &&& walk[0].head == from
        &&& is_walk(deps, walk.drop_first(), walk[0].body, to)
    }
}

/// Whether a predicate depends on another through any number of dependencies.
pub open spec fn reaches(deps: Seq<Dependency>, from: PredicateId, to: PredicateId) -> bool {
    exists|walk: Seq<Dependency>| is_walk(deps, walk, from, to)
}

/// Whether two predicates depend on each other.
pub open spec fn mutual(deps: Seq<Dependency>, a: PredicateId, b: PredicateId) -> bool {
    reaches(deps, a, b) && reaches(deps, b, a)
}

/// The number of negative dependencies on a walk.
pub open spec fn negations(walk: Seq<Dependency>) -> nat
    decreases walk.len(),
{
    if walk.len() == 0 {
        0
    } else {
        negations(walk.drop_first()) + if walk[0].kind == DependencyKind::Negative {
            1nat
        } else {
            0nat
        }
    }
}

/// Whether `level` is the largest number of negations on any walk that starts at `predicate`.
pub open spec fn is_level(deps: Seq<Dependency>, predicate: PredicateId, level: nat) -> bool {
    &&& exists|walk: Seq<Dependency>, to: PredicateId|
        #[trigger] is_walk(deps, walk, predicate, to) && negations(walk) == level
    &&& forall|walk: Seq<Dependency>, to: PredicateId| #[trigger]
        is_walk(deps, walk, predicate, to) ==> negations(walk) <= level
}

/// Whether dependency `index` is negative and lies on a cycle of dependencies.
pub open spec fn closes_negative_cycle(deps: Seq<Dependency>, index: int) -> bool {
    &&& deps[index].kind == DependencyKind::Negative
    &&& mutual(deps, deps[index].head, deps[index].body)
}

pub proof fn lemma_walk_empty(deps: Seq<Dependency>, a: PredicateId)
    ensures
        is_walk(deps, Seq::empty(), a, a),
        reaches(deps, a, a),
{
    assert(is_walk(deps, Seq::empty(), a, a));
}

pub proof fn lemma_walk_single(deps: Seq<Dependency>, dep: Dependency)
    requires
        deps.contains(dep),
    ensures
        is_walk(deps, seq![dep], dep.head, dep.body),
        reaches(deps, dep.head, dep.body),
        negations(seq![dep]) == if dep.kind == DependencyKind::Negative {
            1nat
        } else {
            0nat
        },
{
    let walk = seq![dep];
    reveal_with_fuel(is_walk, 2);
    reveal_with_fuel(negations, 2);
    assert(walk.drop_first() =~= Seq::empty());
    assert(is_walk(deps, walk, dep.head, dep.body));
}

/// Walks that meet compose, and their negations add up.
pub proof fn lemma_walk_append(
    deps: Seq<Dependency>,
    first: Seq<Dependency>,
    second: Seq<Dependency>,
    a: PredicateId,
    b: PredicateId,
    c: PredicateId,
)
    requires
        is_walk(deps, first, a, b),
        is_walk(deps, second, b, c),
    ensures
        is_walk(deps, first + second, a, c),
        negations(first + second) == negations(first) + negations(second),
    decreases first.len(),
{
    if first.len() == 0 {
        assert(first + second =~= second);
    } else {
        lemma_walk_append(deps, first.drop_first(), second, first[0].body, b, c);
        assert((first + second).drop_first() =~= first.drop_first() + second);
        assert((first + second)[0] == first[0]);
    }
}

pub proof fn lemma_reaches_transitive(
    deps: Seq<Dependency>,
    a: PredicateId,
    b: PredicateId,
    c: PredicateId,
)
    requires
        reaches(deps, a, b),
        reaches(deps, b, c),
    ensures
        reaches(deps, a, c),
{
    let first = choose|walk: Seq<Dependency>| is_walk(deps, walk, a, b);
    let second = choose|walk: Seq<Dependency>| is_walk(deps, walk, b, c);
    lemma_walk_append(deps, first, second, a, b, c);
}

/// The set reachable from `source` is the least set that holds it and follows dependencies.
pub proof fn lemma_closed_set_holds_reachable(
    deps: Seq<Dependency>,
    set: Set<PredicateId>,
    source: PredicateId,
    target: PredicateId,
)
    requires
        set.contains(source),
        forall|i: int|
            0 <= i < deps.len() && set.contains((#[trigger] deps[i]).head) ==> set.contains(
                deps[i].body,
            ),
        reaches(deps, source, target),
    ensures
        set.contains(target),
{
    let walk = choose|walk: Seq<Dependency>| is_walk(deps, walk, source, target);
    lemma_closed_set_holds_walk(deps, set, walk, source, target);
}

proof fn lemma_closed_set_holds_walk(
    deps: Seq<Dependency>,
    set: Set<PredicateId>,
    walk: Seq<Dependency>,
    source: PredicateId,
    target: PredicateId,
)
    requires
        set.contains(source),
        forall|i: int|
            0 <= i < deps.len() && set.contains((#[trigger] deps[i]).head) ==> set.contains(
                deps[i].body,
            ),
        is_walk(deps, walk, source, target),
    ensures
        set.contains(target),
    decreases walk.len(),
{
    if walk.len() > 0 {
        let i = choose|i: int| 0 <= i < deps.len() && deps[i] == walk[0];
        assert(set.contains(deps[i].body));
        lemma_closed_set_holds_walk(deps, set, walk.drop_first(), walk[0].body, target);
    }
}

/// Where no negative dependency lies on a cycle, the level of a predicate bounds the levels of
/// what it depends on, and exceeds them across a negation.
pub proof fn lemma_levels_follow_dependencies(
    deps: Seq<Dependency>,
    index: int,
    head_level: nat,
    body_level: nat,
)
    requires
        0 <= index < deps.len(),
        is_level(deps, deps[index].head, head_level),
        is_level(deps, deps[index].body, body_level),
    ensures
        body_level <= head_level,
        deps[index].kind == DependencyKind::Negative ==> body_level < head_level,
{
    let dep = deps[index];
    let (walk, to) = choose|walk: Seq<Dependency>, to: PredicateId| #[trigger]
        is_walk(deps, walk, dep.body, to) && negations(walk) == body_level;
    lemma_walk_single(deps, dep);
    lemma_walk_append(deps, seq![dep], walk, dep.head, dep.body, to);
}

/// A predicate has at most one level.
pub proof fn lemma_level_unique(deps: Seq<Dependency>, predicate: PredicateId, a: nat, b: nat)
    requires
        is_level(deps, predicate, a),
        is_level(deps, predicate, b),
    ensures
        a == b,
{
}

/// Predicates that depend on each other have the same level.
pub proof fn lemma_mutual_levels_agree(
    deps: Seq<Dependency>,
    p: PredicateId,
    q: PredicateId,
    level: nat,
)
    requires
        mutual(deps, p, q),
        is_level(deps, p, level),
    ensures
        is_level(deps, q, level),
{
    let to_q = choose|walk: Seq<Dependency>| is_walk(deps, walk, p, q);
    let to_p = choose|walk: Seq<Dependency>| is_walk(deps, walk, q, p);
    assert forall|walk: Seq<Dependency>, to: PredicateId| #[trigger]
        is_walk(deps, walk, q, to) implies negations(walk) <= level by {
        lemma_walk_append(deps, to_q, walk, p, q, to);
    }
    let (best, end) = choose|walk: Seq<Dependency>, to: PredicateId| #[trigger]
        is_walk(deps, walk, p, to) && negations(walk) == level;
    lemma_walk_append(deps, to_p, best, q, p, end);
    assert(is_walk(deps, to_p + best, q, end));
}

} // verus!
