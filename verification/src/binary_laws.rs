//! What the binary operator pipeline computes of a program.
use vstd::prelude::*;

use crate::ast;
use crate::ast::{ResolvedAtomView, ResolvedLiteralView, ResolvedProgramView, ResolvedRuleView};
use crate::catalog::PredicateId;
use crate::evaluation;
use crate::evaluation::StoreView;
use crate::execution_binary;
use crate::execution_binary::RowLists;
use crate::executor;
use crate::executor::{RelationKinds, SccSummary};
use crate::general;
use crate::pairs;
use crate::pairs::Pair;
use crate::recursion;
use crate::relational::{ProgramPlanView, RecursiveRulePlan, RelationId};
use crate::rounds;
use crate::rounds::Relations;
use crate::schedule;
use crate::schedule::{ProgramSchedule, ScheduledScc, ScheduledStratum};
use crate::schedule_laws;
use crate::semantics;
use crate::subset;
use crate::subset::{BinaryProgramPlan, BinarySccPlan, ComponentShape, RuleShape, SeedView};

verus! {

/// A pair as a tuple.
pub open spec fn pair_tuple(pair: Pair) -> Seq<u32> {
    seq![pair.0, pair.1]
}

/// Whether a pair of a relation is a tuple.
pub open spec fn has_tuple(relations: Relations, id: RelationId, tuple: Seq<u32>) -> bool {
    exists|p: Pair| #[trigger] relations(id).full.contains(p) && tuple == pair_tuple(p)
}

/// The tuples of the first relations.
pub open spec fn store_of(relations: Relations, count: nat) -> StoreView {
    StoreView {
        full: Seq::new(
            count,
            |r: int| Set::new(|t: Seq<u32>| has_tuple(relations, RelationId(r as u32), t)),
        ),
        delta: Seq::new(count, |r: int| Set::empty()),
    }
}

/// Where the recursive components stand among some.
proof fn lemma_scc_places(sccs: Seq<ScheduledScc>) -> (places: Seq<int>)
    ensures
        places.len() == subset::recursive_sccs(sccs).len(),
        forall|k: int|
            0 <= k < places.len() ==> 0 <= (#[trigger] places[k]) < sccs.len()
                && sccs[places[k]].predicates@ == subset::recursive_sccs(sccs)[k],
        forall|k: int, l: int| 0 <= k < l < places.len() ==> places[k] < places[l],
    decreases sccs.len(),
{
    if sccs.len() == 0 {
        Seq::empty()
    } else {
        let rest = sccs.drop_last();
        let earlier = lemma_scc_places(rest);
        if sccs.last().recursive {
            let places = earlier.push(sccs.len() - 1);
            assert forall|k: int| 0 <= k < places.len() implies 0 <= (#[trigger] places[k])
                < sccs.len() && sccs[places[k]].predicates@ == subset::recursive_sccs(
                sccs,
            )[k] by {
                if k < earlier.len() {
                    assert(places[k] == earlier[k]);
                    assert(rest[earlier[k]] == sccs[earlier[k]]);
                }
            }
            assert forall|k: int, l: int| 0 <= k < l < places.len() implies places[k]
                < places[l] by {
                assert(places[k] == earlier[k]);
                if l < earlier.len() {
                    assert(places[l] == earlier[l]);
                }
            }
            places
        } else {
            assert forall|k: int| 0 <= k < earlier.len() implies 0 <= (#[trigger] earlier[k])
                < sccs.len() && sccs[earlier[k]].predicates@ == subset::recursive_sccs(
                sccs,
            )[k] by {
                assert(rest[earlier[k]] == sccs[earlier[k]]);
            }
            earlier
        }
    }
}

/// Where the recursive components stand in evaluation order.
proof fn lemma_places(strata: Seq<ScheduledStratum>) -> (places: Seq<int>)
    ensures
        places.len() == subset::recursive_groups(strata).len(),
        forall|k: int|
            0 <= k < places.len() ==> 0 <= (#[trigger] places[k]) < schedule_laws::flat_groups(
                strata,
            ).len() && schedule_laws::flat_groups(strata)[places[k]] == subset::recursive_groups(
                strata,
            )[k],
        forall|k: int, l: int| 0 <= k < l < places.len() ==> places[k] < places[l],
    decreases strata.len(),
{
    if strata.len() == 0 {
        Seq::empty()
    } else {
        let rest = strata.drop_last();
        let earlier = lemma_places(rest);
        let own = lemma_scc_places(strata.last().sccs@);
        let offset = schedule_laws::flat_groups(rest).len() as int;
        let places = earlier + Seq::new(own.len(), |k: int| offset + own[k]);
        let flat = schedule_laws::flat_groups(strata);
        let groups = subset::recursive_groups(strata);
        assert forall|k: int| 0 <= k < places.len() implies 0 <= (#[trigger] places[k])
            < flat.len() && flat[places[k]] == groups[k] by {
            if k < earlier.len() {
                assert(places[k] == earlier[k]);
            } else {
                let m = k - earlier.len();
                assert(places[k] == offset + own[m]);
                assert(schedule::groups_of(strata.last().sccs@)[own[m]]
                    == strata.last().sccs@[own[m]].predicates@);
            }
        }
        assert forall|k: int, l: int| 0 <= k < l < places.len() implies places[k] < places[l] by {
            if k < earlier.len() {
                assert(places[k] == earlier[k]);
                if l < earlier.len() {
                    assert(places[l] == earlier[l]);
                } else {
                    assert(places[l] == offset + own[l - earlier.len()]);
                }
            } else {
                assert(places[k] == offset + own[k - earlier.len()]);
                assert(places[l] == offset + own[l - earlier.len()]);
            }
        }
        places
    }
}

/// No predicate is in two recursive components.
proof fn lemma_groups_disjoint(
    program: ResolvedProgramView,
    schedule: ProgramSchedule,
    g: int,
    h: int,
    p: PredicateId,
)
    requires
        schedule::schedules(program, schedule),
        0 <= g < subset::recursive_groups(schedule.strata@).len(),
        0 <= h < subset::recursive_groups(schedule.strata@).len(),
        subset::recursive_groups(schedule.strata@)[g].contains(p),
        subset::recursive_groups(schedule.strata@)[h].contains(p),
    ensures
        g == h,
{
    let places = lemma_places(schedule.strata@);
    let flat = schedule_laws::flat_groups(schedule.strata@);
    schedule_laws::law_components_partition(program, schedule, p);
    assert(flat[places[g]].contains(p));
    assert(flat[places[h]].contains(p));
}

/// A rule reads recursive components no later than the one that it derives.
proof fn lemma_groups_ordered(
    program: ResolvedProgramView,
    schedule: ProgramSchedule,
    i: int,
    j: int,
    g: int,
    h: int,
)
    requires
        schedule::schedules(program, schedule),
        0 <= i < program.rules.len(),
        0 <= j < program.rules[i].body.len(),
        0 <= g < subset::recursive_groups(schedule.strata@).len(),
        0 <= h < subset::recursive_groups(schedule.strata@).len(),
        subset::recursive_groups(schedule.strata@)[g].contains(program.rules[i].head.predicate),
        subset::recursive_groups(schedule.strata@)[h].contains(
            program.rules[i].body[j].atom.predicate,
        ),
    ensures
        h <= g,
{
    let places = lemma_places(schedule.strata@);
    let rule = program.rules[i];
    let deps = schedule::program_dependencies(program);
    let item = schedule::literal_dependency(rule.head.predicate, rule.body[j]);
    schedule::lemma_program_dependencies_contain(program, item);
    assert(item == schedule::literal_dependency(
        program.rules[i].head.predicate,
        program.rules[i].body[j],
    ));
    let d = choose|d: int| 0 <= d < deps.len() && deps[d] == item;
    schedule_laws::law_producers_before_consumers(program, schedule, d, places[g], places[h]);
}

/// The facts of a relation are those of the program.
proof fn lemma_fact_list(facts: Seq<(RelationId, [u32; 2])>, id: RelationId, p: Pair)
    ensures
        execution_binary::fact_list(facts, id).contains(p) <==> exists|m: int|
            0 <= m < facts.len() && (#[trigger] facts[m]).0 == id && facts[m].1@ == pair_tuple(p),
    decreases facts.len(),
{
    if facts.len() > 0 {
        let rest = facts.drop_last();
        lemma_fact_list(rest, id, p);
        let earlier = execution_binary::fact_list(rest, id);
        let all = execution_binary::fact_list(facts, id);
        let last = facts.last();
        let own = (last.1@[0], last.1@[1]);
        assert(last.1@ =~= seq![last.1@[0], last.1@[1]]);
        if all.contains(p) {
            let k = choose|k: int| 0 <= k < all.len() && all[k] == p;
            if last.0 == id && k == earlier.len() {
                assert(facts[facts.len() - 1].1@ == pair_tuple(p));
            } else {
                assert(earlier[k] == p);
                let m = choose|m: int|
                    0 <= m < rest.len() && (#[trigger] rest[m]).0 == id && rest[m].1@
                        == pair_tuple(p);
                assert(facts[m] == rest[m]);
            }
        }
        if exists|m: int|
            0 <= m < facts.len() && (#[trigger] facts[m]).0 == id && facts[m].1@ == pair_tuple(
                p,
            ) {
            let m = choose|m: int|
                0 <= m < facts.len() && (#[trigger] facts[m]).0 == id && facts[m].1@
                    == pair_tuple(p);
            if m < rest.len() {
                assert(rest[m] == facts[m]);
                let k = choose|k: int| 0 <= k < earlier.len() && earlier[k] == p;
                assert(all[k] == p);
            } else {
                assert(last.1@[0] == pair_tuple(p)[0]);
                assert(last.1@[1] == pair_tuple(p)[1]);
                assert(all[earlier.len() as int] == p);
            }
        }
    }
}

/// Whether every row of each relation is among some.
spec fn rows_within(rows: RowLists, known: spec_fn(RelationId, Pair) -> bool) -> bool {
    forall|id: RelationId, p: Pair| #[trigger] rows(id).contains(p) ==> known(id, p)
}

/// What a seed makes of a row.
spec fn seed_pair(seed: SeedView, q: Pair) -> Pair {
    (execution_binary::entry(q, seed.columns[0]), execution_binary::entry(q, seed.columns[1]))
}

/// Whether pairs are closed under seeds.
spec fn closed_under_seeds(
    seeds: Seq<SeedView>,
    known: spec_fn(RelationId, Pair) -> bool,
) -> bool {
    forall|k: int, q: Pair|
        #![trigger seed_pair(seeds[k], q)]
        0 <= k < seeds.len() && known(seeds[k].source, q) ==> known(
            seeds[k].target,
            seed_pair(seeds[k], q),
        )
}

proof fn lemma_seeded_rows(rows: RowLists, seed: SeedView, id: RelationId, p: Pair)
    ensures
        execution_binary::seeded(rows, seed)(id).contains(p) <==> (rows(id).contains(p) || (id
            == seed.target && exists|q: Pair| #[trigger]
            rows(seed.source).contains(q) && p == seed_pair(seed, q))),
{
    let old = rows(id);
    let source = rows(seed.source);
    let own = execution_binary::projected(seed.columns, source);
    if id == seed.target {
        rounds::law_distinct_list(old + own);
        let list = rounds::distinct_list(old + own);
        assert(list.contains(p) <==> (old + own).contains(p));
        pairs::lemma_sum_contains(old, own, p);
        if own.contains(p) {
            let k = choose|k: int| 0 <= k < own.len() && own[k] == p;
            assert(source.contains(source[k]));
            assert(p == seed_pair(seed, source[k]));
        }
        if exists|q: Pair| #[trigger] source.contains(q) && p == seed_pair(seed, q) {
            let q = choose|q: Pair| #[trigger] source.contains(q) && p == seed_pair(seed, q);
            let k = choose|k: int| 0 <= k < source.len() && source[k] == q;
            assert(own[k] == p);
        }
    }
}

/// What filling relations through seeds does.
proof fn lemma_all_seeded(
    rows: RowLists,
    seeds: Seq<SeedView>,
    known: spec_fn(RelationId, Pair) -> bool,
)
    requires
        forall|k: int, l: int|
            #![trigger seeds[k], seeds[l]]
            0 <= k < seeds.len() && 0 <= l < seeds.len() ==> seeds[k].source != seeds[l].target,
        rows_within(rows, known),
        closed_under_seeds(seeds, known),
    ensures
        ({
            let after = execution_binary::all_seeded(rows, seeds);
            &&& rows_within(after, known)
            &&& forall|id: RelationId, p: Pair| #[trigger]
                rows(id).contains(p) ==> after(id).contains(p)
            &&& forall|id: RelationId|
                (forall|k: int| 0 <= k < seeds.len() ==> (#[trigger] seeds[k]).target != id)
                    ==> #[trigger] after(id) == rows(id)
            &&& forall|k: int, q: Pair|
                #![trigger seed_pair(seeds[k], q)]
                0 <= k < seeds.len() && rows(seeds[k].source).contains(q) ==> after(
                    seeds[k].target,
                ).contains(seed_pair(seeds[k], q))
        }),
    decreases seeds.len(),
{
    if seeds.len() > 0 {
        let rest = seeds.drop_last();
        let last = seeds.last();
        let n = seeds.len() - 1;
        assert forall|k: int, l: int|
            #![trigger rest[k], rest[l]]
            0 <= k < rest.len() && 0 <= l < rest.len() implies rest[k].source
            != rest[l].target by {
            assert(seeds[k].source != seeds[l].target);
        }
        assert forall|k: int, q: Pair|
            #![trigger seed_pair(rest[k], q)]
            0 <= k < rest.len() && known(rest[k].source, q) implies known(
            rest[k].target,
            seed_pair(rest[k], q),
        ) by {
            assert(rest[k] == seeds[k]);
            assert(known(seeds[k].target, seed_pair(seeds[k], q)));
        }
        lemma_all_seeded(rows, rest, known);
        let before = execution_binary::all_seeded(rows, rest);
        let after = execution_binary::all_seeded(rows, seeds);
        assert forall|id: RelationId, p: Pair| #[trigger] after(id).contains(p) <==> (before(
            id,
        ).contains(p) || (id == last.target && exists|q: Pair| #[trigger]
            before(last.source).contains(q) && p == seed_pair(last, q))) by {
            lemma_seeded_rows(before, last, id, p);
        }
        assert forall|id: RelationId, p: Pair| #[trigger] after(id).contains(p) implies known(
            id,
            p,
        ) by {
            if !before(id).contains(p) {
                let q = choose|q: Pair| #[trigger]
                    before(last.source).contains(q) && p == seed_pair(last, q);
                assert(known(last.source, q));
                assert(known(seeds[n].target, seed_pair(seeds[n], q)));
            }
        }
        assert forall|id: RelationId, p: Pair| #[trigger] rows(id).contains(p) implies after(
            id,
        ).contains(p) by {
            assert(before(id).contains(p));
        }
        assert forall|id: RelationId|
            (forall|k: int| 0 <= k < seeds.len() ==> (#[trigger] seeds[k]).target
                != id) implies #[trigger] after(id) == rows(id) by {
            assert(seeds[n].target != id);
            assert forall|k: int| 0 <= k < rest.len() implies (#[trigger] rest[k]).target != id by {
                assert(seeds[k].target != id);
            }
            assert(before(id) == rows(id));
        }
        assert forall|k: int, q: Pair|
            #![trigger seed_pair(seeds[k], q)]
            0 <= k < seeds.len() && rows(seeds[k].source).contains(q) implies after(
            seeds[k].target,
        ).contains(seed_pair(seeds[k], q)) by {
            if k < n {
                assert(rest[k] == seeds[k]);
                assert(before(rest[k].target).contains(seed_pair(rest[k], q)));
            } else {
                assert(before(last.source).contains(q));
            }
        }
    }
}

/// Whether the seeds of components read relations that none of them fills.
spec fn seeds_apart(sccs: Seq<BinarySccPlan>) -> bool {
    forall|i: int, k: int, j: int, l: int|
        #![trigger sccs[i].seeds@[k], sccs[j].seeds@[l]]
        0 <= i < sccs.len() && 0 <= k < sccs[i].seeds@.len() && 0 <= j < sccs.len() && 0 <= l
            < sccs[j].seeds@.len() ==> sccs[i].seeds@[k].source != sccs[j].seeds@[l].target
}

/// Whether pairs are closed under the seeds of components.
spec fn closed_under_all_seeds(
    sccs: Seq<BinarySccPlan>,
    known: spec_fn(RelationId, Pair) -> bool,
) -> bool {
    forall|i: int|
        0 <= i < sccs.len() ==> closed_under_seeds(
            ast::views((#[trigger] sccs[i]).seeds@),
            known,
        )
}

/// What filling relations through the seeds of components does.
proof fn lemma_components_seeded(
    rows: RowLists,
    sccs: Seq<BinarySccPlan>,
    known: spec_fn(RelationId, Pair) -> bool,
)
    requires
        seeds_apart(sccs),
        rows_within(rows, known),
        closed_under_all_seeds(sccs, known),
    ensures
        ({
            let after = execution_binary::components_seeded(rows, sccs);
            &&& rows_within(after, known)
            &&& forall|id: RelationId, p: Pair| #[trigger]
                rows(id).contains(p) ==> after(id).contains(p)
            &&& forall|id: RelationId|
                (forall|i: int, k: int|
                    #![trigger sccs[i].seeds@[k]]
                    0 <= i < sccs.len() && 0 <= k < sccs[i].seeds@.len()
                        ==> sccs[i].seeds@[k].target != id) ==> #[trigger] after(id) == rows(id)
            &&& forall|i: int, k: int, q: Pair|
                #![trigger sccs[i].seeds@[k], seed_pair(sccs[i].seeds@[k]@, q)]
                0 <= i < sccs.len() && 0 <= k < sccs[i].seeds@.len() && rows(
                    sccs[i].seeds@[k].source,
                ).contains(q) ==> after(sccs[i].seeds@[k].target).contains(
                    seed_pair(sccs[i].seeds@[k]@, q),
                )
        }),
    decreases sccs.len(),
{
    if sccs.len() > 0 {
        let rest = sccs.drop_last();
        let n = sccs.len() - 1;
        let seeds = ast::views(sccs.last().seeds@);
        assert(seeds_apart(rest)) by {
            assert forall|i: int, k: int, j: int, l: int|
                #![trigger rest[i].seeds@[k], rest[j].seeds@[l]]
                0 <= i < rest.len() && 0 <= k < rest[i].seeds@.len() && 0 <= j < rest.len() && 0
                    <= l < rest[j].seeds@.len() implies rest[i].seeds@[k].source
                != rest[j].seeds@[l].target by {
                assert(sccs[i].seeds@[k].source != sccs[j].seeds@[l].target);
            }
        }
        assert(closed_under_all_seeds(rest, known)) by {
            assert forall|i: int| 0 <= i < rest.len() implies closed_under_seeds(
                ast::views((#[trigger] rest[i]).seeds@),
                known,
            ) by {
                assert(rest[i] == sccs[i]);
            }
        }
        lemma_components_seeded(rows, rest, known);
        let before = execution_binary::components_seeded(rows, rest);
        let after = execution_binary::components_seeded(rows, sccs);
        assert forall|k: int, l: int|
            #![trigger seeds[k], seeds[l]]
            0 <= k < seeds.len() && 0 <= l < seeds.len() implies seeds[k].source
            != seeds[l].target by {
            assert(sccs[n].seeds@[k].source != sccs[n].seeds@[l].target);
        }
        assert(closed_under_seeds(ast::views(sccs[n].seeds@), known));
        lemma_all_seeded(before, seeds, known);
        assert forall|id: RelationId, p: Pair| #[trigger] rows(id).contains(p) implies after(
            id,
        ).contains(p) by {
            assert(before(id).contains(p));
        }
        assert forall|id: RelationId|
            (forall|i: int, k: int|
                #![trigger sccs[i].seeds@[k]]
                0 <= i < sccs.len() && 0 <= k < sccs[i].seeds@.len() ==> sccs[i].seeds@[k].target
                    != id) implies #[trigger] after(id) == rows(id) by {
            assert forall|i: int, k: int|
                #![trigger rest[i].seeds@[k]]
                0 <= i < rest.len() && 0 <= k < rest[i].seeds@.len() implies rest[i].seeds@[k].target
                != id by {
                assert(sccs[i].seeds@[k].target != id);
            }
            assert(before(id) == rows(id));
            assert forall|k: int| 0 <= k < seeds.len() implies (#[trigger] seeds[k]).target
                != id by {
                assert(sccs[n].seeds@[k].target != id);
            }
        }
        assert forall|i: int, k: int, q: Pair|
            #![trigger sccs[i].seeds@[k], seed_pair(sccs[i].seeds@[k]@, q)]
            0 <= i < sccs.len() && 0 <= k < sccs[i].seeds@.len() && rows(
                sccs[i].seeds@[k].source,
            ).contains(q) implies after(sccs[i].seeds@[k].target).contains(
            seed_pair(sccs[i].seeds@[k]@, q),
        ) by {
            if i < n {
                assert(rest[i].seeds@[k] == sccs[i].seeds@[k]);
                let p = seed_pair(rest[i].seeds@[k]@, q);
                assert(before(rest[i].seeds@[k].target).contains(p));
                assert(after(rest[i].seeds@[k].target).contains(p));
            } else {
                assert(before(sccs[n].seeds@[k].source).contains(q));
                assert(seeds[k] == sccs[n].seeds@[k]@);
                assert(after(seeds[k].target).contains(seed_pair(seeds[k], q)));
            }
        }
    }
}

/// Whether a component has the seeds and rules of some first rules of a program.
#[verifier::opaque]
spec fn covers(
    rules: Seq<ResolvedRuleView>,
    group: Seq<PredicateId>,
    shape: ComponentShape,
    upto: int,
) -> bool {
    forall|i: int|
        0 <= i < upto && general::derives_into(#[trigger] rules[i], group) ==> {
            ||| {
                &&& subset::recursive_count(rules[i].body, group) == 0
                &&& subset::seed_of(rules[i]) is Ok
                &&& shape.seeds.contains(subset::seed_of(rules[i])->Ok_0)
            }
            ||| {
                &&& subset::recursive_count(rules[i].body, group) == 1
                &&& subset::shape_of(rules[i], group) is Ok
                &&& shape.rules.contains(subset::shape_of(rules[i], group)->Ok_0)
            }
        }
}

/// Whether a rule of a program is where a seed comes from.
spec fn is_seed_rule(
    rules: Seq<ResolvedRuleView>,
    group: Seq<PredicateId>,
    seed: SeedView,
    i: int,
) -> bool {
    &&& 0 <= i < rules.len()
    &&& general::derives_into(rules[i], group)
    &&& subset::recursive_count(rules[i].body, group) == 0
    &&& subset::seed_of(rules[i]) is Ok
    &&& subset::seed_of(rules[i])->Ok_0 == seed
}

/// Whether a rule of a program is where a recursive rule comes from.
spec fn is_shape_rule(
    rules: Seq<ResolvedRuleView>,
    group: Seq<PredicateId>,
    shape: RuleShape,
    i: int,
) -> bool {
    &&& 0 <= i < rules.len()
    &&& general::derives_into(rules[i], group)
    &&& subset::recursive_count(rules[i].body, group) == 1
    &&& subset::shape_of(rules[i], group) is Ok
    &&& subset::shape_of(rules[i], group)->Ok_0 == shape
}

spec fn has_seed_rule(
    rules: Seq<ResolvedRuleView>,
    group: Seq<PredicateId>,
    seed: SeedView,
) -> bool {
    exists|i: int| is_seed_rule(rules, group, seed, i)
}

spec fn has_shape_rule(
    rules: Seq<ResolvedRuleView>,
    group: Seq<PredicateId>,
    shape: RuleShape,
) -> bool {
    exists|i: int| is_shape_rule(rules, group, shape, i)
}

/// The seeds and rules of a component are those of the rules that derive it.
proof fn lemma_shape_covers(rules: Seq<ResolvedRuleView>, group: Seq<PredicateId>, upto: int)
    requires
        0 <= upto <= rules.len(),
        subset::component_shape(rules.take(upto), group) is Ok,
    ensures
        ({
            let shape = subset::component_shape(rules.take(upto), group)->Ok_0;
            &&& covers(rules, group, shape, upto)
            &&& forall|k: int|
                0 <= k < shape.seeds.len() ==> has_seed_rule(rules, group, #[trigger] shape.seeds[k])
            &&& forall|k: int|
                0 <= k < shape.rules.len() ==> has_shape_rule(
                    rules,
                    group,
                    #[trigger] shape.rules[k],
                )
        }),
    decreases upto,
{
    reveal(covers);
    if upto > 0 {
        let taken = rules.take(upto);
        let n = upto - 1;
        assert(taken.drop_last() =~= rules.take(n));
        lemma_shape_covers(rules, group, n);
        let before = subset::component_shape(rules.take(n), group)->Ok_0;
        let after = subset::component_shape(taken, group)->Ok_0;
        let rule = rules[n];
        assert(taken.last() == rule);
        if general::derives_into(rule, group) {
            assert(subset::with_rule(before, rule, group) is Ok);
            assert forall|seed: SeedView| #[trigger]
                before.seeds.contains(seed) implies after.seeds.contains(seed) by {
                let k = choose|k: int| 0 <= k < before.seeds.len() && before.seeds[k] == seed;
                assert(after.seeds[k] == seed);
            }
            assert forall|found: RuleShape| #[trigger]
                before.rules.contains(found) implies after.rules.contains(found) by {
                let k = choose|k: int| 0 <= k < before.rules.len() && before.rules[k] == found;
                assert(after.rules[k] == found);
            }
            if subset::recursive_count(rule.body, group) == 0 {
                let seed = subset::seed_of(rule)->Ok_0;
                assert(after.seeds[before.seeds.len() as int] == seed);
                assert(is_seed_rule(rules, group, seed, n));
            } else {
                let found = subset::shape_of(rule, group)->Ok_0;
                assert(after.rules[before.rules.len() as int] == found);
                assert(is_shape_rule(rules, group, found, n));
            }
            assert forall|k: int| 0 <= k < after.seeds.len() implies has_seed_rule(
                rules,
                group,
                #[trigger] after.seeds[k],
            ) by {
                if k < before.seeds.len() {
                    assert(after.seeds[k] == before.seeds[k]);
                } else {
                    assert(is_seed_rule(rules, group, after.seeds[k], n));
                }
            }
            assert forall|k: int| 0 <= k < after.rules.len() implies has_shape_rule(
                rules,
                group,
                #[trigger] after.rules[k],
            ) by {
                if k < before.rules.len() {
                    assert(after.rules[k] == before.rules[k]);
                } else {
                    assert(is_shape_rule(rules, group, after.rules[k], n));
                }
            }
            assert(covers(rules, group, after, upto)) by {
                assert forall|i: int|
                    0 <= i < upto && general::derives_into(#[trigger] rules[i], group) implies {
                    ||| {
                        &&& subset::recursive_count(rules[i].body, group) == 0
                        &&& subset::seed_of(rules[i]) is Ok
                        &&& after.seeds.contains(subset::seed_of(rules[i])->Ok_0)
                    }
                    ||| {
                        &&& subset::recursive_count(rules[i].body, group) == 1
                        &&& subset::shape_of(rules[i], group) is Ok
                        &&& after.rules.contains(subset::shape_of(rules[i], group)->Ok_0)
                    }
                } by {
                    if i < n {
                        assert(covers(rules, group, before, n));
                    }
                }
            }
        } else {
            assert(after == before);
        }
    }
}

proof fn lemma_rules_compile(
    kinds: RelationKinds,
    ids: Seq<RelationId>,
    rules: Seq<RecursiveRulePlan>,
    count: int,
)
    requires
        0 <= count <= rules.len(),
        executor::first_rule_problem(kinds, ids, rules, count) is None,
    ensures
        forall|i: int| 0 <= i < count ==> ids.contains((#[trigger] rules[i]).target),
    decreases count,
{
    if count > 0 {
        lemma_rules_compile(kinds, ids, rules, count - 1);
    }
}

proof fn lemma_none_missing(rules: Seq<RecursiveRulePlan>, ids: Seq<RelationId>)
    requires
        executor::first_missing(rules, ids) is None,
    ensures
        forall|id: RelationId| #[trigger] ids.contains(id) ==> rounds::has_rule(rules, id),
    decreases ids.len(),
{
    if ids.len() > 0 {
        let rest = ids.drop_last();
        lemma_none_missing(rules, rest);
        assert forall|id: RelationId| #[trigger] ids.contains(id) implies rounds::has_rule(
            rules,
            id,
        ) by {
            let k = choose|k: int| 0 <= k < ids.len() && ids[k] == id;
            if k < rest.len() {
                assert(rest[k] == id);
                assert(rest.contains(id));
            }
        }
    }
}

/// What compiling a component shows: every relation of it has a rule, and no other has.
proof fn lemma_compiled(
    kinds: RelationKinds,
    ids: Seq<RelationId>,
    rules: Seq<RecursiveRulePlan>,
)
    requires
        executor::component_problem(kinds, ids, rules) is None,
    ensures
        forall|id: RelationId| #[trigger] rounds::has_rule(rules, id) <==> ids.contains(id),
{
    lemma_rules_compile(kinds, ids, rules, rules.len() as int);
    lemma_none_missing(rules, ids);
    assert forall|id: RelationId| #[trigger]
        rounds::has_rule(rules, id) <==> ids.contains(id) by {
        if ids.contains(id) {
            assert(rounds::has_rule(rules, id));
        }
    }
}

/// The pair that a binary atom denotes under an assignment.
spec fn atom_pair(atom: ResolvedAtomView, v: spec_fn(u32) -> u32) -> Pair {
    (
        evaluation::term_value(general::plan_term_of(atom.terms[0]), v),
        evaluation::term_value(general::plan_term_of(atom.terms[1]), v),
    )
}

proof fn lemma_atom_tuple(atom: ResolvedAtomView, v: spec_fn(u32) -> u32)
    requires
        subset::is_binary(atom),
    ensures
        evaluation::instance(general::plan_terms_of(atom.terms), v) == pair_tuple(
            atom_pair(atom, v),
        ),
{
    assert(evaluation::instance(general::plan_terms_of(atom.terms), v) =~= pair_tuple(
        atom_pair(atom, v),
    ));
}

/// A seed rule holds where the pair of its head is what the seed makes of the pair of its body.
proof fn lemma_seed_holds(rule: ResolvedRuleView, v: spec_fn(u32) -> u32)
    requires
        subset::seed_of(rule) is Ok,
    ensures
        atom_pair(rule.head, v) == seed_pair(
            subset::seed_of(rule)->Ok_0,
            atom_pair(rule.body[0].atom, v),
        ),
{
}

/// The recursive atom of a rule, and the other one.
spec fn split_body(rule: ResolvedRuleView, group: Seq<PredicateId>) -> (int, int) {
    if group.contains(rule.body[0].atom.predicate) {
        (0, 1)
    } else {
        (1, 0)
    }
}

/// One of two literals is over a group.
proof fn lemma_split_body(rule: ResolvedRuleView, group: Seq<PredicateId>)
    requires
        subset::recursive_count(rule.body, group) == 1,
        rule.body.len() == 2,
    ensures
        ({
            let (own, other) = split_body(rule, group);
            &&& group.contains(rule.body[own].atom.predicate)
            &&& !group.contains(rule.body[other].atom.predicate)
        }),
{
    reveal_with_fuel(subset::recursive_count, 3);
    let first = rule.body.drop_last();
    assert(first.last() == rule.body[0]);
    assert(first.drop_last().len() == 0);
}

/// A recursive rule joins the pairs of its body to the pair of its head.
proof fn lemma_shape_joins(
    rule: ResolvedRuleView,
    group: Seq<PredicateId>,
    plan: RecursiveRulePlan,
    v: spec_fn(u32) -> u32,
)
    requires
        subset::shape_of(rule, group) is Ok,
        subset::has_shape(plan, subset::shape_of(rule, group)->Ok_0),
        subset::rule_is_binary(rule),
    ensures
        rounds::yields(
            plan,
            atom_pair(rule.body[split_body(rule, group).0].atom, v),
            atom_pair(rule.body[split_body(rule, group).1].atom, v),
            atom_pair(rule.head, v),
        ),
{
    let (own, other) = split_body(rule, group);
    let left = rule.body[own].atom;
    let right = rule.body[other].atom;
    let keys = subset::shared_columns(left, right);
    assert(keys.len() == 1);
    assert forall|k: int| 0 <= k < keys.len() implies (#[trigger] keys[k]).0 < 2 && keys[k].1 < 2
        && left.terms[keys[k].0 as int] == right.terms[keys[k].1 as int] by {}
    let output = subset::head_columns(rule.head, left, right)->Ok_0;
    assert(plan.join.output@ == output);
    assert(output[0] == subset::head_column(rule.head, left, right, 0)->Ok_0);
    assert(output[1] == subset::head_column(rule.head, left, right, 1)->Ok_0);
}

/// Pairs that agree on the key are those of a rule's body under some assignment.
proof fn lemma_shape_realized(
    rule: ResolvedRuleView,
    group: Seq<PredicateId>,
    plan: RecursiveRulePlan,
    a: Pair,
    b: Pair,
) -> (v: spec_fn(u32) -> u32)
    requires
        subset::shape_of(rule, group) is Ok,
        subset::has_shape(plan, subset::shape_of(rule, group)->Ok_0),
        rounds::column_of(a, plan.join.left_key) == rounds::column_of(b, plan.join.right_key),
    ensures
        atom_pair(rule.body[split_body(rule, group).0].atom, v) == a,
        atom_pair(rule.body[split_body(rule, group).1].atom, v) == b,
{
    let (own, other) = split_body(rule, group);
    let left = rule.body[own].atom;
    let right = rule.body[other].atom;
    let l0 = left.terms[0]->Variable_0.0;
    let l1 = left.terms[1]->Variable_0.0;
    let r0 = right.terms[0]->Variable_0.0;
    let r1 = right.terms[1]->Variable_0.0;
    let keys = subset::shared_columns(left, right);
    assert(keys.len() == 1);
    let s00 = subset::shared_at(left, right, 0, 0);
    let s01 = subset::shared_at(left, right, 0, 1);
    let s10 = subset::shared_at(left, right, 1, 0);
    let s11 = subset::shared_at(left, right, 1, 1);
    assert(keys == s00 + s01 + s10 + s11);
    assert(s00.len() + s01.len() + s10.len() + s11.len() == 1);
    assert(s00.len() == 1 <==> l0 == r0);
    assert(s01.len() == 1 <==> l0 == r1);
    assert(s10.len() == 1 <==> l1 == r0);
    assert(s11.len() == 1 <==> l1 == r1);
    if s00.len() == 1 {
        assert(keys[0] == s00[0]);
    } else if s01.len() == 1 {
        assert(keys[0] == s01[0]);
    } else if s10.len() == 1 {
        assert(keys[0] == s10[0]);
    } else {
        assert(keys[0] == s11[0]);
    }
    let v = |x: u32|
        if x == l0 {
            a.0
        } else if x == l1 {
            a.1
        } else if x == r0 {
            b.0
        } else {
            b.1
        };
    v
}

/// The pairs of every relation when a plan has been run.
pub open spec fn pipeline_result(plan: BinaryProgramPlan, summaries: Seq<SccSummary>) -> Relations {
    execution_binary::after_components(
        plan.recursive_sccs@,
        execution_binary::start_relations(plan),
        summaries,
        plan.recursive_sccs@.len() as int,
    )
}

/// Whether the plan of a program was run to its end.
#[verifier::opaque]
pub open spec fn pipeline_ran(
    program: ResolvedProgramView,
    schedule: ProgramSchedule,
    plan: BinaryProgramPlan,
    summaries: Seq<SccSummary>,
) -> bool {
    let groups = subset::recursive_groups(schedule.strata@);
    &&& schedule::schedules(program, schedule)
    &&& subset::refusal_of(program, groups) is None
    &&& subset::lowers_binary(program, groups, plan)
    &&& execution_binary::components_compile(plan)
    &&& summaries.len() == plan.recursive_sccs@.len()
    &&& execution_binary::components_settled(
        plan.recursive_sccs@,
        execution_binary::start_relations(plan),
        summaries,
        plan.recursive_sccs@.len() as int,
    )
    &&& execution_binary::reads_numbered(
        plan.recursive_sccs@,
        execution_binary::start_relations(plan),
        summaries,
        plan.recursive_sccs@.len() as int,
    )
}

proof fn lemma_no_wide_literal(body: Seq<ResolvedLiteralView>, from: int, j: int)
    requires
        0 <= from <= j < body.len(),
        subset::first_wide_literal(body, from) is None,
    ensures
        subset::is_binary(body[j].atom),
    decreases j - from,
{
    if from < j {
        lemma_no_wide_literal(body, from + 1, j);
    }
}

proof fn lemma_no_wide(rules: Seq<ResolvedRuleView>, from: int, i: int)
    requires
        0 <= from <= i < rules.len(),
        subset::first_wide(rules, from) is None,
    ensures
        subset::rule_is_binary(rules[i]),
    decreases i - from,
{
    if from < i {
        lemma_no_wide(rules, from + 1, i);
    } else {
        assert forall|j: int| 0 <= j < rules[i].body.len() implies subset::is_binary(
            (#[trigger] rules[i].body[j]).atom,
        ) by {
            lemma_no_wide_literal(rules[i].body, 0, j);
        }
    }
}

proof fn lemma_none_outside(
    rules: Seq<ResolvedRuleView>,
    groups: Seq<Seq<PredicateId>>,
    from: int,
    i: int,
)
    requires
        0 <= from <= i < rules.len(),
        subset::first_outside(rules, groups, from) is None,
        rules[i].body.len() > 0,
    ensures
        subset::in_a_group(groups, rules[i].head.predicate),
    decreases i - from,
{
    if from < i {
        lemma_none_outside(rules, groups, from + 1, i);
    }
}

/// What a component of the plan is made of.
proof fn lemma_component_parts(
    program: ResolvedProgramView,
    schedule: ProgramSchedule,
    plan: BinaryProgramPlan,
    summaries: Seq<SccSummary>,
    g: int,
)
    requires
        pipeline_ran(program, schedule, plan, summaries),
        0 <= g < plan.recursive_sccs@.len(),
    ensures
        ({
            let group = subset::recursive_groups(schedule.strata@)[g];
            let scc = plan.recursive_sccs@[g];
            let shape = subset::component_shape(program.rules, group)->Ok_0;
            &&& subset::component_has(scc, group, shape)
            &&& covers(program.rules, group, shape, program.rules.len() as int)
            &&& forall|k: int|
                0 <= k < shape.seeds.len() ==> has_seed_rule(
                    program.rules,
                    group,
                    #[trigger] shape.seeds[k],
                )
            &&& forall|k: int|
                0 <= k < shape.rules.len() ==> has_shape_rule(
                    program.rules,
                    group,
                    #[trigger] shape.rules[k],
                )
            &&& forall|id: RelationId| #[trigger]
                rounds::has_rule(scc.plan.rules@, id) <==> scc.plan.relations@.contains(id)
        }),
{
    let groups = subset::recursive_groups(schedule.strata@);
    let group = groups[g];
    let scc = plan.recursive_sccs@[g];
    assert(subset::component_shape(program.rules, group) is Ok && subset::component_has(
        scc,
        group,
        subset::component_shape(program.rules, group)->Ok_0,
    )) by {
        reveal(pipeline_ran);
        execution_binary::lemma_not_refused(program.rules, groups, 0, g);
    }
    assert(executor::component_problem(
        execution_binary::plan_kinds(plan),
        scc.plan.relations@,
        scc.plan.rules@,
    ) is None) by {
        reveal(pipeline_ran);
    }
    assert(program.rules.take(program.rules.len() as int) =~= program.rules);
    lemma_shape_covers(program.rules, group, program.rules.len() as int);
    lemma_compiled(execution_binary::plan_kinds(plan), scc.plan.relations@, scc.plan.rules@);
}

proof fn lemma_group_relations(group: Seq<PredicateId>, p: PredicateId)
    ensures
        general::relations_of(group).contains(RelationId(p.0)) <==> group.contains(p),
{
    let ids = general::relations_of(group);
    if ids.contains(RelationId(p.0)) {
        let k = choose|k: int| 0 <= k < ids.len() && ids[k] == RelationId(p.0);
        assert(group[k] == p);
    }
    if group.contains(p) {
        let k = choose|k: int| 0 <= k < group.len() && group[k] == p;
        assert(ids[k] == RelationId(p.0));
    }
}

/// What a recursive rule reads and derives.
proof fn lemma_shape_facts(
    rule: ResolvedRuleView,
    group: Seq<PredicateId>,
    own: RecursiveRulePlan,
)
    requires
        subset::recursive_count(rule.body, group) == 1,
        subset::shape_of(rule, group) is Ok,
        subset::has_shape(own, subset::shape_of(rule, group)->Ok_0),
    ensures
        ({
            let (left, right) = split_body(rule, group);
            &&& rule.body.len() == 2
            &&& !rule.body[0].negated
            &&& !rule.body[1].negated
            &&& own.target == RelationId(rule.head.predicate.0)
            &&& own.delta_input == RelationId(rule.body[left].atom.predicate.0)
            &&& own.right_input == RelationId(rule.body[right].atom.predicate.0)
            &&& group.contains(rule.body[left].atom.predicate)
            &&& !group.contains(rule.body[right].atom.predicate)
        }),
{
    lemma_split_body(rule, group);
}

/// Where a rule of the plan comes from.
proof fn lemma_plan_rule(
    program: ResolvedProgramView,
    schedule: ProgramSchedule,
    plan: BinaryProgramPlan,
    summaries: Seq<SccSummary>,
    g: int,
    k: int,
) -> (i: int)
    requires
        pipeline_ran(program, schedule, plan, summaries),
        0 <= g < plan.recursive_sccs@.len(),
        0 <= k < plan.recursive_sccs@[g].plan.rules@.len(),
    ensures
        0 <= i < program.rules.len(),
        subset::rule_is_binary(program.rules[i]),
        subset::recursive_groups(schedule.strata@)[g].contains(program.rules[i].head.predicate),
        subset::recursive_count(
            program.rules[i].body,
            subset::recursive_groups(schedule.strata@)[g],
        ) == 1,
        subset::shape_of(program.rules[i], subset::recursive_groups(schedule.strata@)[g]) is Ok,
        subset::has_shape(
            plan.recursive_sccs@[g].plan.rules@[k],
            subset::shape_of(
                program.rules[i],
                subset::recursive_groups(schedule.strata@)[g],
            )->Ok_0,
        ),
{
    let group = subset::recursive_groups(schedule.strata@)[g];
    lemma_component_parts(program, schedule, plan, summaries, g);
    let shape = subset::component_shape(program.rules, group)->Ok_0;
    let own = plan.recursive_sccs@[g].plan.rules@[k];
    assert(subset::has_shape(own, shape.rules[k]));
    assert(has_shape_rule(program.rules, group, shape.rules[k]));
    let i = choose|i: int| is_shape_rule(program.rules, group, shape.rules[k], i);
    assert(subset::rule_is_binary(program.rules[i])) by {
        reveal(pipeline_ran);
        lemma_no_wide(program.rules, 0, i);
    }
    i
}

/// A rule of the program that derives a component reads no later one, and its own only through the
/// recursive atom.
proof fn lemma_right_is_earlier(
    program: ResolvedProgramView,
    schedule: ProgramSchedule,
    i: int,
    g: int,
    right: int,
)
    requires
        schedule::schedules(program, schedule),
        0 <= i < program.rules.len(),
        0 <= right < program.rules[i].body.len(),
        0 <= g < subset::recursive_groups(schedule.strata@).len(),
        subset::recursive_groups(schedule.strata@)[g].contains(program.rules[i].head.predicate),
        !subset::recursive_groups(schedule.strata@)[g].contains(
            program.rules[i].body[right].atom.predicate,
        ),
    ensures
        forall|h: int|
            g <= h < subset::recursive_groups(schedule.strata@).len() ==> !(
            #[trigger] subset::recursive_groups(schedule.strata@)[h]).contains(
                program.rules[i].body[right].atom.predicate,
            ),
{
    let groups = subset::recursive_groups(schedule.strata@);
    assert forall|h: int| g <= h < groups.len() implies !(#[trigger] groups[h]).contains(
        program.rules[i].body[right].atom.predicate,
    ) by {
        if groups[h].contains(program.rules[i].body[right].atom.predicate) {
            lemma_groups_ordered(program, schedule, i, right, g, h);
        }
    }
}

/// The pairs of every relation after some first components.
spec fn state(plan: BinaryProgramPlan, summaries: Seq<SccSummary>, count: int) -> Relations {
    execution_binary::after_components(
        plan.recursive_sccs@,
        execution_binary::start_relations(plan),
        summaries,
        count,
    )
}

/// Rounds leave a relation without a rule as it is.
proof fn lemma_rounds_frame(
    rules: Seq<RecursiveRulePlan>,
    relations: Relations,
    count: nat,
    id: RelationId,
)
    requires
        !rounds::has_rule(rules, id),
    ensures
        rounds::after_rounds(rules, relations, count)(id) == relations(id),
    decreases count,
{
    if count > 0 {
        lemma_rounds_frame(rules, relations, (count - 1) as nat, id);
    }
}

/// Components leave a relation as it is that is not among theirs.
proof fn lemma_state_frame(
    program: ResolvedProgramView,
    schedule: ProgramSchedule,
    plan: BinaryProgramPlan,
    summaries: Seq<SccSummary>,
    from: int,
    to: int,
    id: RelationId,
)
    requires
        pipeline_ran(program, schedule, plan, summaries),
        0 <= from <= to <= plan.recursive_sccs@.len(),
        forall|g: int|
            from <= g < to ==> !(#[trigger] plan.recursive_sccs@[g]).plan.relations@.contains(id),
    ensures
        state(plan, summaries, to)(id) == state(plan, summaries, from)(id),
    decreases to - from,
{
    if from < to {
        let g = to - 1;
        lemma_state_frame(program, schedule, plan, summaries, from, g, id);
        lemma_component_parts(program, schedule, plan, summaries, g);
        let rules = plan.recursive_sccs@[g].plan.rules@;
        assert(!rounds::has_rule(rules, id));
        lemma_rounds_frame(
            rules,
            state(plan, summaries, g),
            summaries[g].iterations as nat,
            id,
        );
    }
}

/// The relations of a component are its predicates.
proof fn lemma_component_ids(
    program: ResolvedProgramView,
    schedule: ProgramSchedule,
    plan: BinaryProgramPlan,
    summaries: Seq<SccSummary>,
    p: PredicateId,
)
    requires
        pipeline_ran(program, schedule, plan, summaries),
    ensures
        plan.recursive_sccs@.len() == subset::recursive_groups(schedule.strata@).len(),
        forall|g: int|
            0 <= g < plan.recursive_sccs@.len() ==> ((
            #[trigger] plan.recursive_sccs@[g]).plan.relations@.contains(RelationId(p.0))
                <==> subset::recursive_groups(schedule.strata@)[g].contains(p)),
{
    assert(plan.recursive_sccs@.len() == subset::recursive_groups(schedule.strata@).len()) by {
        reveal(pipeline_ran);
    }
    assert forall|g: int| 0 <= g < plan.recursive_sccs@.len() implies ((
    #[trigger] plan.recursive_sccs@[g]).plan.relations@.contains(RelationId(p.0))
        <==> subset::recursive_groups(schedule.strata@)[g].contains(p)) by {
        lemma_component_parts(program, schedule, plan, summaries, g);
        lemma_group_relations(subset::recursive_groups(schedule.strata@)[g], p);
    }
}

/// A relation that a rule reads beside the recursive one is complete before its component runs.
proof fn lemma_right_complete(
    program: ResolvedProgramView,
    schedule: ProgramSchedule,
    plan: BinaryProgramPlan,
    summaries: Seq<SccSummary>,
    g: int,
    i: int,
    right: int,
)
    requires
        pipeline_ran(program, schedule, plan, summaries),
        0 <= g < plan.recursive_sccs@.len(),
        0 <= i < program.rules.len(),
        0 <= right < program.rules[i].body.len(),
        subset::recursive_groups(schedule.strata@)[g].contains(program.rules[i].head.predicate),
        !subset::recursive_groups(schedule.strata@)[g].contains(
            program.rules[i].body[right].atom.predicate,
        ),
    ensures
        state(plan, summaries, g)(RelationId(program.rules[i].body[right].atom.predicate.0))
            == pipeline_result(plan, summaries)(
            RelationId(program.rules[i].body[right].atom.predicate.0),
        ),
{
    let p = program.rules[i].body[right].atom.predicate;
    let groups = subset::recursive_groups(schedule.strata@);
    lemma_component_ids(program, schedule, plan, summaries, p);
    assert(schedule::schedules(program, schedule)) by {
        reveal(pipeline_ran);
    }
    lemma_right_is_earlier(program, schedule, i, g, right);
    let n = plan.recursive_sccs@.len() as int;
    assert forall|h: int| g <= h < n implies !(
    #[trigger] plan.recursive_sccs@[h]).plan.relations@.contains(RelationId(p.0)) by {
        assert(!groups[h].contains(p));
    }
    lemma_state_frame(program, schedule, plan, summaries, g, n, RelationId(p.0));
}

/// The relations of a component are as they were at the start until it runs.
proof fn lemma_own_untouched(
    program: ResolvedProgramView,
    schedule: ProgramSchedule,
    plan: BinaryProgramPlan,
    summaries: Seq<SccSummary>,
    g: int,
    p: PredicateId,
)
    requires
        pipeline_ran(program, schedule, plan, summaries),
        0 <= g < plan.recursive_sccs@.len(),
        subset::recursive_groups(schedule.strata@)[g].contains(p),
    ensures
        state(plan, summaries, g)(RelationId(p.0)) == execution_binary::start_relations(plan)(
            RelationId(p.0),
        ),
        state(plan, summaries, g + 1)(RelationId(p.0)) == pipeline_result(plan, summaries)(
            RelationId(p.0),
        ),
        forall|q: Pair|
            execution_binary::start_relations(plan)(RelationId(p.0)).full.contains(q)
                ==> #[trigger] execution_binary::start_relations(plan)(
                RelationId(p.0),
            ).delta.contains(q),
{
    let id = RelationId(p.0);
    let groups = subset::recursive_groups(schedule.strata@);
    lemma_component_ids(program, schedule, plan, summaries, p);
    assert(schedule::schedules(program, schedule)) by {
        reveal(pipeline_ran);
    }
    let n = plan.recursive_sccs@.len() as int;
    assert forall|h: int| 0 <= h < n && h != g implies !(
    #[trigger] plan.recursive_sccs@[h]).plan.relations@.contains(id) by {
        if groups[h].contains(p) {
            lemma_groups_disjoint(program, schedule, g, h, p);
        }
    }
    lemma_state_frame(program, schedule, plan, summaries, 0, g, id);
    lemma_state_frame(program, schedule, plan, summaries, g + 1, n, id);
    assert(plan.recursive_sccs@[g].plan.relations@.contains(id));
    assert(execution_binary::derives(plan.recursive_sccs@, id));
}

/// The rules of a component join on the first two columns.
proof fn lemma_rules_binary(
    program: ResolvedProgramView,
    schedule: ProgramSchedule,
    plan: BinaryProgramPlan,
    summaries: Seq<SccSummary>,
    g: int,
)
    requires
        pipeline_ran(program, schedule, plan, summaries),
        0 <= g < plan.recursive_sccs@.len(),
    ensures
        forall|k: int|
            0 <= k < plan.recursive_sccs@[g].plan.rules@.len() ==> recursion::is_binary_join(
                (#[trigger] plan.recursive_sccs@[g].plan.rules@[k]).join,
            ),
{
    reveal(pipeline_ran);
    execution_binary::law_lowered_plan_is_sound(
        program,
        subset::recursive_groups(schedule.strata@),
        plan,
    );
}

/// The rules of a component can be evaluated round by round.
proof fn lemma_component_ready(
    program: ResolvedProgramView,
    schedule: ProgramSchedule,
    plan: BinaryProgramPlan,
    summaries: Seq<SccSummary>,
    g: int,
)
    requires
        pipeline_ran(program, schedule, plan, summaries),
        0 <= g < plan.recursive_sccs@.len(),
    ensures
        rounds::rules_linear(plan.recursive_sccs@[g].plan.rules@),
        summaries[g].iterations > 0 ==> rounds::rights_numbered(
            plan.recursive_sccs@[g].plan.rules@,
            state(plan, summaries, g),
        ),
        rounds::all_settled_but(plan.recursive_sccs@[g].plan.rules@, state(plan, summaries, g)),
{
    let rules = plan.recursive_sccs@[g].plan.rules@;
    let now = state(plan, summaries, g);
    let group = subset::recursive_groups(schedule.strata@)[g];
    lemma_component_parts(program, schedule, plan, summaries, g);
    lemma_rules_binary(program, schedule, plan, summaries, g);
    assert forall|k: int|
        #![trigger rules[k].delta_input]
        0 <= k < rules.len() implies {
        &&& recursion::is_binary_join(rules[k].join)
        &&& rounds::has_rule(rules, rules[k].delta_input)
        &&& !rounds::has_rule(rules, rules[k].right_input)
    } by {
        let i = lemma_plan_rule(program, schedule, plan, summaries, g, k);
        let rule = program.rules[i];
        lemma_shape_facts(rule, group, rules[k]);
        let (left, right) = split_body(rule, group);
        lemma_group_relations(group, rule.body[left].atom.predicate);
        lemma_group_relations(group, rule.body[right].atom.predicate);
    }
    assert(summaries[g].iterations > 0 ==> rounds::rights_numbered(rules, now)) by {
        reveal(pipeline_ran);
        assert(plan.recursive_sccs@[g].plan.rules@ == rules);
    }
    assert forall|k: int, a: Pair, b: Pair, c: Pair|
        #![trigger rounds::yields(rules[k], a, b, c)]
        0 <= k < rules.len() && rounds::yields(rules[k], a, b, c) && now(
            rules[k].delta_input,
        ).full.contains(a) && !now(rules[k].delta_input).delta.contains(a) && now(
            rules[k].right_input,
        ).full.contains(b) implies now(rules[k].target).full.contains(c) by {
        let i = lemma_plan_rule(program, schedule, plan, summaries, g, k);
        let rule = program.rules[i];
        lemma_shape_facts(rule, group, rules[k]);
        let (left, right) = split_body(rule, group);
        let p = rule.body[left].atom.predicate;
        lemma_own_untouched(program, schedule, plan, summaries, g, p);
        assert(execution_binary::start_relations(plan)(RelationId(p.0)).delta.contains(a));
    }
}

/// Whether pairs are closed under the rules of components.
spec fn closed_under_plan(
    sccs: Seq<BinarySccPlan>,
    known: spec_fn(RelationId, Pair) -> bool,
) -> bool {
    forall|g: int, k: int, a: Pair, b: Pair, c: Pair|
        #![trigger rounds::yields(sccs[g].plan.rules@[k], a, b, c)]
        0 <= g < sccs.len() && 0 <= k < sccs[g].plan.rules@.len() && rounds::yields(
            sccs[g].plan.rules@[k],
            a,
            b,
            c,
        ) && known(sccs[g].plan.rules@[k].delta_input, a) && known(
            sccs[g].plan.rules@[k].right_input,
            b,
        ) ==> known(sccs[g].plan.rules@[k].target, c)
}

/// What every component keeps.
proof fn lemma_reached(
    program: ResolvedProgramView,
    schedule: ProgramSchedule,
    plan: BinaryProgramPlan,
    summaries: Seq<SccSummary>,
    count: int,
    known: spec_fn(RelationId, Pair) -> bool,
)
    requires
        pipeline_ran(program, schedule, plan, summaries),
        0 <= count <= plan.recursive_sccs@.len(),
        rounds::all_within(execution_binary::start_relations(plan), known),
        closed_under_plan(plan.recursive_sccs@, known),
    ensures
        rounds::delta_known(state(plan, summaries, count)),
        rounds::all_within(state(plan, summaries, count), known),
        forall|id: RelationId, p: Pair| #[trigger]
            execution_binary::start_relations(plan)(id).full.contains(p) ==> state(
                plan,
                summaries,
                count,
            )(id).full.contains(p),
    decreases count,
{
    if count > 0 {
        let g = count - 1;
        lemma_reached(program, schedule, plan, summaries, g, known);
        lemma_component_parts(program, schedule, plan, summaries, g);
        lemma_component_ready(program, schedule, plan, summaries, g);
        let rules = plan.recursive_sccs@[g].plan.rules@;
        let before = state(plan, summaries, g);
        assert(rounds::is_closed_under(rules, before, known)) by {
            assert forall|k: int, a: Pair, b: Pair, c: Pair|
                #![trigger rounds::yields(rules[k], a, b, c)]
                0 <= k < rules.len() && rounds::yields(rules[k], a, b, c) && known(
                    rules[k].delta_input,
                    a,
                ) && before(rules[k].right_input).full.contains(b) implies known(
                rules[k].target,
                c,
            ) by {
                assert(known(rules[k].right_input, b));
                assert(rounds::yields(plan.recursive_sccs@[g].plan.rules@[k], a, b, c));
            }
        }
        rounds::lemma_component_round(rules, before, summaries[g].iterations as nat, known);
        let after = state(plan, summaries, count);
        assert forall|id: RelationId, p: Pair| #[trigger]
            execution_binary::start_relations(plan)(id).full.contains(p) implies after(
            id,
        ).full.contains(p) by {
            assert(before(id).full.contains(p));
        }
    }
}

/// A component that has run is closed under its rules.
proof fn lemma_component_closed(
    program: ResolvedProgramView,
    schedule: ProgramSchedule,
    plan: BinaryProgramPlan,
    summaries: Seq<SccSummary>,
    g: int,
)
    requires
        pipeline_ran(program, schedule, plan, summaries),
        0 <= g < plan.recursive_sccs@.len(),
    ensures
        rounds::is_closed_under(
            plan.recursive_sccs@[g].plan.rules@,
            state(plan, summaries, g),
            |id: RelationId, p: Pair| state(plan, summaries, g + 1)(id).full.contains(p),
        ),
{
    let all = |id: RelationId, p: Pair| true;
    lemma_reached(program, schedule, plan, summaries, g, all);
    lemma_component_parts(program, schedule, plan, summaries, g);
    lemma_component_ready(program, schedule, plan, summaries, g);
    let scc = plan.recursive_sccs@[g].plan;
    let before = state(plan, summaries, g);
    let count = summaries[g].iterations as nat;
    let after = rounds::after_rounds(scc.rules@, before, count);
    assert(rounds::is_settled(scc.relations@, after)) by {
        reveal(pipeline_ran);
        assert(execution_binary::settles_at(
            plan.recursive_sccs@[g].plan.relations@,
            plan.recursive_sccs@[g].plan.rules@,
            before,
            count,
        ));
    }
    assert forall|k: int| 0 <= k < scc.rules@.len() implies after(
        (#[trigger] scc.rules@[k]).target,
    ).delta.len() == 0 by {
        let id = scc.rules@[k].target;
        assert(rounds::has_rule(scc.rules@, id));
        assert(scc.relations@.contains(id));
        let m = choose|m: int| 0 <= m < scc.relations@.len() && scc.relations@[m] == id;
        assert(after(scc.relations@[m]).delta.len() == 0);
    }
    rounds::law_component_reaches_closure(scc.rules@, before, count, all);
    assert(after == state(plan, summaries, g + 1));
}

/// Whether a tuple store holds a pair.
spec fn holds_pair(store: StoreView, id: RelationId, p: Pair) -> bool {
    (id.0 as int) < store.full.len() && store.full[id.0 as int].contains(pair_tuple(p))
}

proof fn lemma_pair_tuple(p: Pair, q: Pair)
    requires
        pair_tuple(p) == pair_tuple(q),
    ensures
        p == q,
{
    assert(pair_tuple(p)[0] == p.0 && pair_tuple(p)[1] == p.1);
    assert(pair_tuple(q)[0] == q.0 && pair_tuple(q)[1] == q.1);
}

/// What is known at the outset: the plan is in range, and no seed reads what a component derives.
proof fn lemma_outset(
    program: ResolvedProgramView,
    schedule: ProgramSchedule,
    plan: BinaryProgramPlan,
    summaries: Seq<SccSummary>,
)
    requires
        pipeline_ran(program, schedule, plan, summaries),
    ensures
        execution_binary::plan_in_range(plan),
        subset::facts_are(plan.facts@, general::fact_tuples(program.rules)),
        schedule::schedules(program, schedule),
        plan.recursive_sccs@.len() == subset::recursive_groups(schedule.strata@).len(),
        general::is_predicate_count(program, plan.predicate_count as int),
{
    reveal(pipeline_ran);
    execution_binary::law_lowered_plan_is_sound(
        program,
        subset::recursive_groups(schedule.strata@),
        plan,
    );
}

/// Every seed of a program that is not refused copies columns of an underived relation.
proof fn lemma_none_selective(
    rules: Seq<ResolvedRuleView>,
    groups: Seq<Seq<PredicateId>>,
    from: int,
    i: int,
)
    requires
        0 <= from <= i < rules.len(),
        subset::first_selective(rules, groups, from) is None,
        rules[i].body.len() == 1,
    ensures
        subset::is_plain_seed(rules[i], groups),
    decreases i - from,
{
    if from < i {
        lemma_none_selective(rules, groups, from + 1, i);
    }
}

/// The rule that a seed of the plan comes from.
proof fn lemma_plan_seed(
    program: ResolvedProgramView,
    schedule: ProgramSchedule,
    plan: BinaryProgramPlan,
    summaries: Seq<SccSummary>,
    g: int,
    k: int,
) -> (i: int)
    requires
        pipeline_ran(program, schedule, plan, summaries),
        0 <= g < plan.recursive_sccs@.len(),
        0 <= k < plan.recursive_sccs@[g].seeds@.len(),
    ensures
        ({
            let group = subset::recursive_groups(schedule.strata@)[g];
            let seed = plan.recursive_sccs@[g].seeds@[k]@;
            let rule = program.rules[i];
            &&& 0 <= i < program.rules.len()
            &&& is_seed_rule(program.rules, group, seed, i)
            &&& rule.body.len() == 1
            &&& !rule.body[0].negated
            &&& subset::rule_is_binary(rule)
            &&& subset::is_plain_seed(rule, subset::recursive_groups(schedule.strata@))
            &&& seed.source == RelationId(rule.body[0].atom.predicate.0)
            &&& seed.target == RelationId(rule.head.predicate.0)
            &&& group.contains(rule.head.predicate)
        }),
{
    let groups = subset::recursive_groups(schedule.strata@);
    let group = groups[g];
    lemma_component_parts(program, schedule, plan, summaries, g);
    lemma_outset(program, schedule, plan, summaries);
    let shape = subset::component_shape(program.rules, group)->Ok_0;
    let seed = plan.recursive_sccs@[g].seeds@[k]@;
    assert(ast::views(plan.recursive_sccs@[g].seeds@)[k] == seed);
    assert(shape.seeds[k] == seed);
    assert(has_seed_rule(program.rules, group, shape.seeds[k]));
    let i = choose|i: int| is_seed_rule(program.rules, group, seed, i);
    assert(subset::rule_is_binary(program.rules[i])) by {
        reveal(pipeline_ran);
        lemma_no_wide(program.rules, 0, i);
    }
    assert(subset::is_plain_seed(program.rules[i], groups)) by {
        reveal(pipeline_ran);
        lemma_none_selective(program.rules, groups, 0, i);
    }
    i
}

proof fn lemma_seeds_apart(
    program: ResolvedProgramView,
    schedule: ProgramSchedule,
    plan: BinaryProgramPlan,
    summaries: Seq<SccSummary>,
)
    requires
        pipeline_ran(program, schedule, plan, summaries),
    ensures
        seeds_apart(plan.recursive_sccs@),
{
    let sccs = plan.recursive_sccs@;
    let groups = subset::recursive_groups(schedule.strata@);
    lemma_outset(program, schedule, plan, summaries);
    assert forall|i: int, k: int, j: int, l: int|
        #![trigger sccs[i].seeds@[k], sccs[j].seeds@[l]]
        0 <= i < sccs.len() && 0 <= k < sccs[i].seeds@.len() && 0 <= j < sccs.len() && 0 <= l
            < sccs[j].seeds@.len() implies sccs[i].seeds@[k].source
        != sccs[j].seeds@[l].target by {
        let x = lemma_plan_seed(program, schedule, plan, summaries, i, k);
        let y = lemma_plan_seed(program, schedule, plan, summaries, j, l);
        assert(groups[j].contains(program.rules[y].head.predicate));
        assert(subset::in_a_group(groups, program.rules[y].head.predicate));
    }
}

/// The facts of the plan are those of the program.
proof fn lemma_fact_rows(plan: BinaryProgramPlan, id: RelationId, p: Pair)
    ensures
        execution_binary::fact_rows(plan.facts@)(id).contains(p) <==> exists|m: int|
            0 <= m < plan.facts@.len() && (#[trigger] plan.facts@[m]).0 == id && plan.facts@[m].1@
                == pair_tuple(p),
{
    lemma_fact_list(plan.facts@, id, p);
    let list = execution_binary::fact_list(plan.facts@, id);
    rounds::law_distinct_list(list);
    assert(rounds::distinct_list(list).contains(p) <==> list.contains(p));
}

/// A store that is closed under the rules is closed under what the pipeline does.
proof fn lemma_model_closed(
    program: ResolvedProgramView,
    schedule: ProgramSchedule,
    plan: BinaryProgramPlan,
    summaries: Seq<SccSummary>,
    other: StoreView,
    negation: StoreView,
)
    requires
        pipeline_ran(program, schedule, plan, summaries),
        other.full.len() == plan.predicate_count,
        semantics::closed_under(program, other, negation),
    ensures
        closed_under_all_seeds(
            plan.recursive_sccs@,
            |id: RelationId, p: Pair| holds_pair(other, id, p),
        ),
        closed_under_plan(
            plan.recursive_sccs@,
            |id: RelationId, p: Pair| holds_pair(other, id, p),
        ),
{
    let known = |id: RelationId, p: Pair| holds_pair(other, id, p);
    let sccs = plan.recursive_sccs@;
    lemma_outset(program, schedule, plan, summaries);
    assert forall|g: int| 0 <= g < sccs.len() implies closed_under_seeds(
        ast::views((#[trigger] sccs[g]).seeds@),
        known,
    ) by {
        let seeds = ast::views(sccs[g].seeds@);
        assert forall|k: int, q: Pair|
            #![trigger seed_pair(seeds[k], q)]
            0 <= k < seeds.len() && known(seeds[k].source, q) implies known(
            seeds[k].target,
            seed_pair(seeds[k], q),
        ) by {
            let i = lemma_plan_seed(program, schedule, plan, summaries, g, k);
            let rule = program.rules[i];
            let source = rule.body[0].atom;
            let x = source.terms[0]->Variable_0.0;
            let y = source.terms[1]->Variable_0.0;
            let v = |b: u32|
                if b == x {
                    q.0
                } else {
                    q.1
                };
            assert(atom_pair(source, v) == q);
            lemma_atom_tuple(source, v);
            lemma_atom_tuple(rule.head, v);
            lemma_seed_holds(rule, v);
            assert(semantics::literal_tuple(rule, 0, v) == pair_tuple(q));
            assert(semantics::positives_hold(rule, None, other, v));
            assert(semantics::negatives_hold(rule, negation, v));
            assert(semantics::head_holds(program.rules[i], other, v));
            assert(schedule::mentions(rule, rule.head.predicate));
            assert(general::occurs(program, rule.head.predicate));
        }
    }
    assert forall|g: int, k: int, a: Pair, b: Pair, c: Pair|
        #![trigger rounds::yields(sccs[g].plan.rules@[k], a, b, c)]
        0 <= g < sccs.len() && 0 <= k < sccs[g].plan.rules@.len() && rounds::yields(
            sccs[g].plan.rules@[k],
            a,
            b,
            c,
        ) && known(sccs[g].plan.rules@[k].delta_input, a) && known(
            sccs[g].plan.rules@[k].right_input,
            b,
        ) implies known(sccs[g].plan.rules@[k].target, c) by {
        lemma_model_joins(program, schedule, plan, summaries, other, negation, g, k, a, b, c);
    }
}

proof fn lemma_model_joins(
    program: ResolvedProgramView,
    schedule: ProgramSchedule,
    plan: BinaryProgramPlan,
    summaries: Seq<SccSummary>,
    other: StoreView,
    negation: StoreView,
    g: int,
    k: int,
    a: Pair,
    b: Pair,
    c: Pair,
)
    requires
        pipeline_ran(program, schedule, plan, summaries),
        other.full.len() == plan.predicate_count,
        semantics::closed_under(program, other, negation),
        0 <= g < plan.recursive_sccs@.len(),
        0 <= k < plan.recursive_sccs@[g].plan.rules@.len(),
        rounds::yields(plan.recursive_sccs@[g].plan.rules@[k], a, b, c),
        holds_pair(other, plan.recursive_sccs@[g].plan.rules@[k].delta_input, a),
        holds_pair(other, plan.recursive_sccs@[g].plan.rules@[k].right_input, b),
    ensures
        holds_pair(other, plan.recursive_sccs@[g].plan.rules@[k].target, c),
{
    let group = subset::recursive_groups(schedule.strata@)[g];
    let own = plan.recursive_sccs@[g].plan.rules@[k];
    let i = lemma_plan_rule(program, schedule, plan, summaries, g, k);
    let rule = program.rules[i];
    lemma_shape_facts(rule, group, own);
    let (left, right) = split_body(rule, group);
    let v = lemma_shape_realized(rule, group, own, a, b);
    lemma_shape_joins(rule, group, own, v);
    assert(atom_pair(rule.head, v) == c);
    lemma_atom_tuple(rule.body[left].atom, v);
    lemma_atom_tuple(rule.body[right].atom, v);
    lemma_atom_tuple(rule.head, v);
    assert(semantics::literal_tuple(rule, left, v) == pair_tuple(a));
    assert(semantics::literal_tuple(rule, right, v) == pair_tuple(b));
    assert(semantics::positives_hold(rule, None, other, v));
    assert(semantics::negatives_hold(rule, negation, v));
    assert(semantics::head_holds(program.rules[i], other, v));
    assert(general::is_predicate_count(program, plan.predicate_count as int)) by {
        reveal(pipeline_ran);
    }
    assert(schedule::mentions(rule, rule.head.predicate));
    assert(general::occurs(program, rule.head.predicate));
}

/// The pipeline derives nothing that the rules do not demand: its result is part of every store
/// that holds the facts and is closed under the rules.
pub proof fn law_pipeline_result_is_least(
    program: ResolvedProgramView,
    schedule: ProgramSchedule,
    plan: BinaryProgramPlan,
    summaries: Seq<SccSummary>,
    other: StoreView,
    negation: StoreView,
)
    requires
        pipeline_ran(program, schedule, plan, summaries),
        other.full.len() == plan.predicate_count,
        semantics::holds_facts(general::fact_tuples(program.rules), other),
        semantics::closed_under(program, other, negation),
    ensures
        semantics::included(
            store_of(pipeline_result(plan, summaries), plan.predicate_count as nat),
            other,
        ),
{
    let known = |id: RelationId, p: Pair| holds_pair(other, id, p);
    let facts = execution_binary::fact_rows(plan.facts@);
    let result = pipeline_result(plan, summaries);
    lemma_outset(program, schedule, plan, summaries);
    lemma_seeds_apart(program, schedule, plan, summaries);
    lemma_model_closed(program, schedule, plan, summaries, other, negation);
    assert forall|id: RelationId, p: Pair| #[trigger] facts(id).contains(p) implies known(id, p) by {
        lemma_fact_rows(plan, id, p);
        let m = choose|m: int|
            0 <= m < plan.facts@.len() && (#[trigger] plan.facts@[m]).0 == id && plan.facts@[m].1@
                == pair_tuple(p);
        assert(general::fact_tuples(program.rules)[m].1 == pair_tuple(p));
    }
    lemma_components_seeded(facts, plan.recursive_sccs@, known);
    let start = execution_binary::start_relations(plan);
    assert forall|id: RelationId, p: Pair| #[trigger] start(id).full.contains(p) implies known(
        id,
        p,
    ) by {
        assert(execution_binary::start_rows(plan)(id).contains(p));
    }
    lemma_reached(
        program,
        schedule,
        plan,
        summaries,
        plan.recursive_sccs@.len() as int,
        known,
    );
    let store = store_of(result, plan.predicate_count as nat);
    assert forall|r: int, t: Seq<u32>|
        0 <= r < store.full.len() && #[trigger] store.full[r].contains(
            t,
        ) implies other.full[r].contains(t) by {
        let id = RelationId(r as u32);
        assert(has_tuple(result, id, t));
        let p = choose|p: Pair| #[trigger] result(id).full.contains(p) && t == pair_tuple(p);
        assert(known(id, p));
    }
}

/// What holds of the rows before the first round: the facts are among them, underived relations
/// have nothing else, and seeds have been followed.
proof fn lemma_start(
    program: ResolvedProgramView,
    schedule: ProgramSchedule,
    plan: BinaryProgramPlan,
    summaries: Seq<SccSummary>,
)
    requires
        pipeline_ran(program, schedule, plan, summaries),
    ensures
        forall|id: RelationId, p: Pair| #[trigger]
            execution_binary::fact_rows(plan.facts@)(id).contains(p)
                ==> execution_binary::start_rows(plan)(id).contains(p),
        forall|g: int, k: int, q: Pair|
            #![trigger plan.recursive_sccs@[g].seeds@[k], seed_pair(plan.recursive_sccs@[g].seeds@[k]@, q)]
            0 <= g < plan.recursive_sccs@.len() && 0 <= k < plan.recursive_sccs@[g].seeds@.len()
                && execution_binary::start_rows(plan)(
                plan.recursive_sccs@[g].seeds@[k].source,
            ).contains(q) ==> execution_binary::start_rows(plan)(
                plan.recursive_sccs@[g].seeds@[k].target,
            ).contains(seed_pair(plan.recursive_sccs@[g].seeds@[k]@, q)),
{
    let sccs = plan.recursive_sccs@;
    let facts = execution_binary::fact_rows(plan.facts@);
    let start = execution_binary::start_rows(plan);
    let all = |id: RelationId, p: Pair| true;
    lemma_seeds_apart(program, schedule, plan, summaries);
    lemma_components_seeded(facts, sccs, all);
    assert forall|g: int, k: int, q: Pair|
        #![trigger sccs[g].seeds@[k], seed_pair(sccs[g].seeds@[k]@, q)]
        0 <= g < sccs.len() && 0 <= k < sccs[g].seeds@.len() && start(
            sccs[g].seeds@[k].source,
        ).contains(q) implies start(sccs[g].seeds@[k].target).contains(
        seed_pair(sccs[g].seeds@[k]@, q),
    ) by {
        let source = sccs[g].seeds@[k].source;
        assert forall|j: int, l: int|
            #![trigger sccs[j].seeds@[l]]
            0 <= j < sccs.len() && 0 <= l < sccs[j].seeds@.len() implies sccs[j].seeds@[l].target
            != source by {
            assert(sccs[g].seeds@[k].source != sccs[j].seeds@[l].target);
        }
        assert(start(source) == facts(source));
    }
}

/// Every pair at the start is in the result.
proof fn lemma_start_kept(
    program: ResolvedProgramView,
    schedule: ProgramSchedule,
    plan: BinaryProgramPlan,
    summaries: Seq<SccSummary>,
    id: RelationId,
    p: Pair,
)
    requires
        pipeline_ran(program, schedule, plan, summaries),
        (id.0 as int) < plan.predicate_count,
        execution_binary::start_rows(plan)(id).contains(p),
    ensures
        pipeline_result(plan, summaries)(id).full.contains(p),
{
    let all = |id: RelationId, p: Pair| true;
    lemma_reached(
        program,
        schedule,
        plan,
        summaries,
        plan.recursive_sccs@.len() as int,
        all,
    );
    assert(execution_binary::start_relations(plan)(id).full.contains(p));
}

proof fn lemma_store_holds(relations: Relations, count: nat, r: int, p: Pair)
    requires
        0 <= r < count,
        count <= u32::MAX + 1,
    ensures
        store_of(relations, count).full[r].contains(pair_tuple(p)) <==> relations(
            RelationId(r as u32),
        ).full.contains(p),
{
    let id = RelationId(r as u32);
    if store_of(relations, count).full[r].contains(pair_tuple(p)) {
        assert(has_tuple(relations, id, pair_tuple(p)));
        let q = choose|q: Pair| #[trigger]
            relations(id).full.contains(q) && pair_tuple(p) == pair_tuple(q);
        lemma_pair_tuple(p, q);
    }
    if relations(id).full.contains(p) {
        assert(has_tuple(relations, id, pair_tuple(p)));
    }
}

/// A seed rule holds in the result.
proof fn lemma_result_seeded(
    program: ResolvedProgramView,
    schedule: ProgramSchedule,
    plan: BinaryProgramPlan,
    summaries: Seq<SccSummary>,
    g: int,
    i: int,
    v: spec_fn(u32) -> u32,
)
    requires
        pipeline_ran(program, schedule, plan, summaries),
        0 <= g < plan.recursive_sccs@.len(),
        0 <= i < program.rules.len(),
        general::derives_into(program.rules[i], subset::recursive_groups(schedule.strata@)[g]),
        subset::recursive_count(
            program.rules[i].body,
            subset::recursive_groups(schedule.strata@)[g],
        ) == 0,
        subset::seed_of(program.rules[i]) is Ok,
        subset::component_shape(
            program.rules,
            subset::recursive_groups(schedule.strata@)[g],
        )->Ok_0.seeds.contains(subset::seed_of(program.rules[i])->Ok_0),
        pipeline_result(plan, summaries)(
            RelationId(program.rules[i].body[0].atom.predicate.0),
        ).full.contains(atom_pair(program.rules[i].body[0].atom, v)),
    ensures
        pipeline_result(plan, summaries)(
            RelationId(program.rules[i].head.predicate.0),
        ).full.contains(atom_pair(program.rules[i].head, v)),
{
    let groups = subset::recursive_groups(schedule.strata@);
    let group = groups[g];
    let rule = program.rules[i];
    let seed = subset::seed_of(rule)->Ok_0;
    let source = rule.body[0].atom.predicate;
    let q = atom_pair(rule.body[0].atom, v);
    let sccs = plan.recursive_sccs@;
    let n = sccs.len() as int;
    lemma_outset(program, schedule, plan, summaries);
    lemma_component_parts(program, schedule, plan, summaries, g);
    lemma_seed_holds(rule, v);
    assert(subset::is_plain_seed(rule, groups)) by {
        reveal(pipeline_ran);
        lemma_none_selective(program.rules, groups, 0, i);
    }
    lemma_component_ids(program, schedule, plan, summaries, source);
    assert forall|h: int| 0 <= h < n implies !(
    #[trigger] sccs[h]).plan.relations@.contains(RelationId(source.0)) by {
        if groups[h].contains(source) {
            assert(subset::in_a_group(groups, source));
        }
    }
    lemma_state_frame(program, schedule, plan, summaries, 0, n, RelationId(source.0));
    let shape = subset::component_shape(program.rules, group)->Ok_0;
    let k = choose|k: int| 0 <= k < shape.seeds.len() && shape.seeds[k] == seed;
    assert(ast::views(sccs[g].seeds@)[k] == sccs[g].seeds@[k]@);
    assert(sccs[g].seeds@[k]@ == seed);
    lemma_start(program, schedule, plan, summaries);
    assert(execution_binary::start_rows(plan)(sccs[g].seeds@[k].source).contains(q));
    let p = seed_pair(sccs[g].seeds@[k]@, q);
    assert(execution_binary::start_rows(plan)(sccs[g].seeds@[k].target).contains(p));
    assert(execution_binary::seed_in_range(sccs[g].seeds@[k]@, plan.predicate_count));
    lemma_start_kept(program, schedule, plan, summaries, seed.target, p);
}

/// A recursive rule holds in the result.
proof fn lemma_result_joined(
    program: ResolvedProgramView,
    schedule: ProgramSchedule,
    plan: BinaryProgramPlan,
    summaries: Seq<SccSummary>,
    g: int,
    i: int,
    v: spec_fn(u32) -> u32,
)
    requires
        pipeline_ran(program, schedule, plan, summaries),
        0 <= g < plan.recursive_sccs@.len(),
        0 <= i < program.rules.len(),
        general::derives_into(program.rules[i], subset::recursive_groups(schedule.strata@)[g]),
        subset::rule_is_binary(program.rules[i]),
        subset::recursive_count(
            program.rules[i].body,
            subset::recursive_groups(schedule.strata@)[g],
        ) == 1,
        subset::shape_of(program.rules[i], subset::recursive_groups(schedule.strata@)[g]) is Ok,
        subset::component_shape(
            program.rules,
            subset::recursive_groups(schedule.strata@)[g],
        )->Ok_0.rules.contains(
            subset::shape_of(
                program.rules[i],
                subset::recursive_groups(schedule.strata@)[g],
            )->Ok_0,
        ),
        forall|j: int|
            0 <= j < program.rules[i].body.len() ==> pipeline_result(plan, summaries)(
                RelationId((#[trigger] program.rules[i].body[j]).atom.predicate.0),
            ).full.contains(atom_pair(program.rules[i].body[j].atom, v)),
    ensures
        pipeline_result(plan, summaries)(
            RelationId(program.rules[i].head.predicate.0),
        ).full.contains(atom_pair(program.rules[i].head, v)),
{
    let group = subset::recursive_groups(schedule.strata@)[g];
    let rule = program.rules[i];
    let found = subset::shape_of(rule, group)->Ok_0;
    let rules = plan.recursive_sccs@[g].plan.rules@;
    lemma_component_parts(program, schedule, plan, summaries, g);
    let shape = subset::component_shape(program.rules, group)->Ok_0;
    let k = choose|k: int| 0 <= k < shape.rules.len() && shape.rules[k] == found;
    assert(subset::has_shape(rules[k], shape.rules[k]));
    lemma_shape_facts(rule, group, rules[k]);
    let (left, right) = split_body(rule, group);
    let a = atom_pair(rule.body[left].atom, v);
    let b = atom_pair(rule.body[right].atom, v);
    let c = atom_pair(rule.head, v);
    lemma_shape_joins(rule, group, rules[k], v);
    lemma_own_untouched(
        program,
        schedule,
        plan,
        summaries,
        g,
        rule.body[left].atom.predicate,
    );
    lemma_own_untouched(program, schedule, plan, summaries, g, rule.head.predicate);
    lemma_right_complete(program, schedule, plan, summaries, g, i, right);
    lemma_component_closed(program, schedule, plan, summaries, g);
    assert(rule.body[left] == program.rules[i].body[left]);
    assert(rule.body[right] == program.rules[i].body[right]);
    let after = state(plan, summaries, g + 1);
    let held = |id: RelationId, p: Pair| after(id).full.contains(p);
    assert(held(rules[k].delta_input, a));
    assert(state(plan, summaries, g)(rules[k].right_input).full.contains(b));
    assert(rounds::yields(rules[k], a, b, c));
    assert(held(rules[k].target, c));
}

/// The pipeline derives all that the rules demand: its result holds the facts and is closed under
/// the rules.
pub proof fn law_pipeline_result_is_model(
    program: ResolvedProgramView,
    schedule: ProgramSchedule,
    plan: BinaryProgramPlan,
    summaries: Seq<SccSummary>,
    negation: StoreView,
)
    requires
        pipeline_ran(program, schedule, plan, summaries),
    ensures
        semantics::holds_facts(
            general::fact_tuples(program.rules),
            store_of(pipeline_result(plan, summaries), plan.predicate_count as nat),
        ),
        semantics::closed_under(
            program,
            store_of(pipeline_result(plan, summaries), plan.predicate_count as nat),
            negation,
        ),
{
    let result = pipeline_result(plan, summaries);
    let count = plan.predicate_count as nat;
    let store = store_of(result, count);
    let groups = subset::recursive_groups(schedule.strata@);
    let tuples = general::fact_tuples(program.rules);
    lemma_outset(program, schedule, plan, summaries);
    lemma_start(program, schedule, plan, summaries);
    assert forall|m: int| 0 <= m < tuples.len() implies store.full[(
    #[trigger] tuples[m]).0.0 as int].contains(tuples[m].1) by {
        let fact = plan.facts@[m];
        let p = (fact.1@[0], fact.1@[1]);
        assert(fact.1@ =~= pair_tuple(p));
        lemma_fact_rows(plan, fact.0, p);
        assert(execution_binary::fact_rows(plan.facts@)(fact.0).contains(p));
        lemma_start_kept(program, schedule, plan, summaries, fact.0, p);
        lemma_store_holds(result, count, fact.0.0 as int, p);
    }
    assert forall|i: int, v: spec_fn(u32) -> u32|
        0 <= i < program.rules.len() && program.rules[i].body.len() > 0 && #[trigger]
        semantics::positives_hold(program.rules[i], None, store, v)
            && semantics::negatives_hold(program.rules[i], negation, v) implies semantics::head_holds(
        program.rules[i],
        store,
        v,
    ) by {
        lemma_result_closed(program, schedule, plan, summaries, i, v);
    }
}

/// One rule holds in the result.
proof fn lemma_result_closed(
    program: ResolvedProgramView,
    schedule: ProgramSchedule,
    plan: BinaryProgramPlan,
    summaries: Seq<SccSummary>,
    i: int,
    v: spec_fn(u32) -> u32,
)
    requires
        pipeline_ran(program, schedule, plan, summaries),
        0 <= i < program.rules.len(),
        program.rules[i].body.len() > 0,
        semantics::positives_hold(
            program.rules[i],
            None,
            store_of(pipeline_result(plan, summaries), plan.predicate_count as nat),
            v,
        ),
    ensures
        semantics::head_holds(
            program.rules[i],
            store_of(pipeline_result(plan, summaries), plan.predicate_count as nat),
            v,
        ),
{
    let result = pipeline_result(plan, summaries);
    let count = plan.predicate_count as nat;
    let store = store_of(result, count);
    let groups = subset::recursive_groups(schedule.strata@);
    let rule = program.rules[i];
    lemma_outset(program, schedule, plan, summaries);
    assert(subset::rule_is_binary(rule) && subset::in_a_group(groups, rule.head.predicate)) by {
        reveal(pipeline_ran);
        lemma_no_wide(program.rules, 0, i);
        lemma_none_outside(program.rules, groups, 0, i);
    }
    let g = choose|g: int| 0 <= g < groups.len() && (#[trigger] groups[g]).contains(
        rule.head.predicate,
    );
    lemma_component_parts(program, schedule, plan, summaries, g);
    let shape = subset::component_shape(program.rules, groups[g])->Ok_0;
    assert(covers(program.rules, groups[g], shape, program.rules.len() as int));
    assert(general::derives_into(program.rules[i], groups[g]));
    assert(schedule::mentions(rule, rule.head.predicate));
    assert(general::occurs(program, rule.head.predicate));
    assert forall|j: int| 0 <= j < rule.body.len() && !(
    #[trigger] rule.body[j]).negated implies result(
        RelationId(rule.body[j].atom.predicate.0),
    ).full.contains(atom_pair(rule.body[j].atom, v)) by {
        let p = rule.body[j].atom.predicate;
        assert(schedule::mentions(program.rules[i], p));
        assert(general::occurs(program, p));
        lemma_atom_tuple(rule.body[j].atom, v);
        assert(store.full[p.0 as int].contains(semantics::literal_tuple(rule, j, v)));
        lemma_store_holds(result, count, p.0 as int, atom_pair(rule.body[j].atom, v));
    }
    reveal(covers);
    if subset::recursive_count(rule.body, groups[g]) == 0 {
        assert(rule.body[0] == program.rules[i].body[0]);
        lemma_result_seeded(program, schedule, plan, summaries, g, i, v);
    } else {
        assert(!rule.body[0].negated && !rule.body[1].negated && rule.body.len() == 2);
        lemma_result_joined(program, schedule, plan, summaries, g, i, v);
    }
    lemma_atom_tuple(rule.head, v);
    lemma_store_holds(result, count, rule.head.predicate.0 as int, atom_pair(rule.head, v));
}

proof fn lemma_seeds_ascend(rows: RowLists, seeds: Seq<SeedView>, id: RelationId)
    requires
        pairs::pairs_ascending(rows(id)),
    ensures
        pairs::pairs_ascending(execution_binary::all_seeded(rows, seeds)(id)),
    decreases seeds.len(),
{
    if seeds.len() > 0 {
        let earlier = execution_binary::all_seeded(rows, seeds.drop_last());
        let seed = seeds.last();
        lemma_seeds_ascend(rows, seeds.drop_last(), id);
        rounds::law_distinct_list(
            earlier(id) + execution_binary::projected(seed.columns, earlier(seed.source)),
        );
    }
}

proof fn lemma_start_ascends(rows: RowLists, sccs: Seq<BinarySccPlan>, id: RelationId)
    requires
        pairs::pairs_ascending(rows(id)),
    ensures
        pairs::pairs_ascending(execution_binary::components_seeded(rows, sccs)(id)),
    decreases sccs.len(),
{
    if sccs.len() > 0 {
        lemma_start_ascends(rows, sccs.drop_last(), id);
        lemma_seeds_ascend(
            execution_binary::components_seeded(rows, sccs.drop_last()),
            ast::views(sccs.last().seeds@),
            id,
        );
    }
}

proof fn lemma_rounds_ascend(
    rules: Seq<RecursiveRulePlan>,
    relations: Relations,
    count: nat,
    id: RelationId,
)
    requires
        pairs::pairs_ascending(relations(id).full),
    ensures
        pairs::pairs_ascending(rounds::after_rounds(rules, relations, count)(id).full),
    decreases count,
{
    if count > 0 {
        lemma_rounds_ascend(rules, relations, (count - 1) as nat, id);
        let before = rounds::after_rounds(rules, relations, (count - 1) as nat);
        rounds::law_distinct_list(before(id).full + rounds::new_pairs(rules, id, before));
    }
}

proof fn lemma_components_ascend(
    sccs: Seq<BinarySccPlan>,
    relations: Relations,
    summaries: Seq<SccSummary>,
    count: int,
    id: RelationId,
)
    requires
        pairs::pairs_ascending(relations(id).full),
    ensures
        pairs::pairs_ascending(
            execution_binary::after_components(sccs, relations, summaries, count)(id).full,
        ),
    decreases count,
{
    if count > 0 {
        lemma_components_ascend(sccs, relations, summaries, count - 1, id);
        lemma_rounds_ascend(
            sccs[count - 1].plan.rules@,
            execution_binary::after_components(sccs, relations, summaries, count - 1),
            summaries[count - 1].iterations as nat,
            id,
        );
    }
}

/// The binary pipeline leaves the rows of every relation in ascending order, each once.
pub proof fn law_pipeline_rows_ascend(plan: BinaryProgramPlan, summaries: Seq<SccSummary>)
    ensures
        forall|id: RelationId|
            pairs::pairs_ascending((#[trigger] pipeline_result(plan, summaries)(id)).full),
{
    assert forall|id: RelationId| pairs::pairs_ascending(
        (#[trigger] pipeline_result(plan, summaries)(id)).full,
    ) by {
        let facts = execution_binary::fact_list(plan.facts@, id);
        rounds::law_distinct_list(facts);
        lemma_start_ascends(
            execution_binary::fact_rows(plan.facts@),
            plan.recursive_sccs@,
            id,
        );
        lemma_components_ascend(
            plan.recursive_sccs@,
            execution_binary::start_relations(plan),
            summaries,
            plan.recursive_sccs@.len() as int,
            id,
        );
    }
}

/// The binary pipeline and the general evaluation of a program give every relation the same tuples;
/// the pipeline has them in the order that [`law_pipeline_rows_ascend`] states.
pub proof fn law_backends_agree(
    program: ResolvedProgramView,
    schedule: ProgramSchedule,
    plan: BinaryProgramPlan,
    summaries: Seq<SccSummary>,
    general_plan: ProgramPlanView,
    limit: usize,
    store: StoreView,
)
    requires
        pipeline_ran(program, schedule, plan, summaries),
        semantics::results_in(program, general_plan, Seq::empty(), limit, store),
    ensures
        store_of(pipeline_result(plan, summaries), plan.predicate_count as nat).full == store.full,
{
    let own = store_of(pipeline_result(plan, summaries), plan.predicate_count as nat);
    let tuples = general::fact_tuples(program.rules);
    let none = Seq::<(RelationId, Seq<u32>)>::empty();
    assert(tuples + none =~= tuples);
    lemma_outset(program, schedule, plan, summaries);
    semantics::lemma_result_size(program, general_plan, none, limit, store);
    assert(general_plan.predicate_count == plan.predicate_count) by {
        let a = plan.predicate_count as int;
        let b = general_plan.predicate_count as int;
        assert(general::is_predicate_count(program, b));
        if a > 0 {
            let p = choose|p: PredicateId| #[trigger] general::occurs(program, p) && p.0 == a - 1;
            assert(p.0 < b);
        }
        if b > 0 {
            let p = choose|p: PredicateId| #[trigger] general::occurs(program, p) && p.0 == b - 1;
            assert(p.0 < a);
        }
    }
    semantics::law_result_is_model(program, general_plan, none, limit, store);
    law_pipeline_result_is_least(program, schedule, plan, summaries, store, store);
    law_pipeline_result_is_model(program, schedule, plan, summaries, store);
    semantics::law_result_is_least(program, general_plan, none, limit, store, own);
    assert forall|r: int| 0 <= r < own.full.len() implies own.full[r] == #[trigger] store.full[r] by {
        assert forall|t: Seq<u32>| own.full[r].contains(t) <==> store.full[r].contains(t) by {}
        assert(own.full[r] =~= store.full[r]);
    }
    assert(own.full =~= store.full);
}

} // verus!
