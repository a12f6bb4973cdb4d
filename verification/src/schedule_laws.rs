//! What a schedule guarantees: producers before consumers, negation across strata.
use vstd::prelude::*;

use crate::ast::ResolvedProgramView;
use crate::catalog::PredicateId;
use crate::graph;
use crate::graph::{Dependency, DependencyKind};
use crate::schedule;
use crate::schedule::{ProgramSchedule, ScheduledStratum};

verus! {

/// The groups of all strata, in evaluation order.
pub open spec fn flat_groups(strata: Seq<ScheduledStratum>) -> Seq<Seq<PredicateId>>
    decreases strata.len(),
{
    if strata.len() == 0 {
        Seq::empty()
    } else {
        flat_groups(strata.drop_last()) + schedule::groups_of(strata.last().sccs@)
    }
}

/// The positions in the order of the groups with a level.
spec fn level_positions(
    deps: Seq<Dependency>,
    order: Seq<Seq<PredicateId>>,
    level: nat,
) -> Seq<int>
    decreases order.len(),
{
    if order.len() == 0 {
        Seq::empty()
    } else {
        let earlier = level_positions(deps, order.drop_last(), level);
        if graph::is_level(deps, order.last()[0], level) {
            earlier.push(order.len() - 1)
        } else {
            earlier
        }
    }
}

proof fn lemma_level_positions(deps: Seq<Dependency>, order: Seq<Seq<PredicateId>>, level: nat)
    ensures
        level_positions(deps, order, level).len() == schedule::at_level(deps, order, level).len(),
        forall|i: int|
            0 <= i < schedule::at_level(deps, order, level).len() ==> {
                let k = #[trigger] level_positions(deps, order, level)[i];
                0 <= k < order.len() && schedule::at_level(deps, order, level)[i] == order[k] && graph::is_level(
                    deps,
                    order[k][0],
                    level,
                )
            },
        forall|i: int, j: int|
            0 <= i < j < schedule::at_level(deps, order, level).len() ==> #[trigger] level_positions(
                deps,
                order,
                level,
            )[i] < #[trigger] level_positions(deps, order, level)[j],
        forall|k: int|
            0 <= k < order.len() && graph::is_level(deps, (#[trigger] order[k])[0], level)
                ==> level_positions(deps, order, level).contains(k),
    decreases order.len(),
{
    if order.len() > 0 {
        let rest = order.drop_last();
        lemma_level_positions(deps, rest, level);
        let earlier = level_positions(deps, rest, level);
        let all = level_positions(deps, order, level);
        assert forall|i: int| 0 <= i < schedule::at_level(deps, order, level).len() implies {
            let k = #[trigger] all[i];
            0 <= k < order.len() && schedule::at_level(deps, order, level)[i] == order[k] && graph::is_level(
                deps,
                order[k][0],
                level,
            )
        } by {
            if i < earlier.len() {
                assert(all[i] == earlier[i]);
                assert(rest[earlier[i]] == order[earlier[i]]);
            }
        }
        assert forall|i: int, j: int|
            0 <= i < j < schedule::at_level(deps, order, level).len() implies #[trigger] all[i]
            < #[trigger] all[j] by {
            assert(all[i] == earlier[i]);
            if j < earlier.len() {
                assert(all[j] == earlier[j]);
            }
        }
        assert forall|k: int|
            0 <= k < order.len() && graph::is_level(
                deps,
                (#[trigger] order[k])[0],
                level,
            ) implies all.contains(k) by {
            if k < rest.len() {
                assert(rest[k] == order[k]);
                assert(earlier.contains(k));
                let m = choose|m: int| 0 <= m < earlier.len() && earlier[m] == k;
                assert(all[m] == k);
            } else {
                assert(all[earlier.len() as int] == k);
            }
        }
    }
}

/// The stratum and the place in it of a group in evaluation order.
pub proof fn lemma_flat_place(strata: Seq<ScheduledStratum>, a: int) -> (place: (int, int))
    requires
        0 <= a < flat_groups(strata).len(),
    ensures
        0 <= place.0 < strata.len(),
        0 <= place.1 < strata[place.0].sccs@.len(),
        flat_groups(strata)[a] == strata[place.0].sccs@[place.1].predicates@,
        a == flat_groups(strata.take(place.0)).len() + place.1,
    decreases strata.len(),
{
    let rest = strata.drop_last();
    let earlier = flat_groups(rest);
    if a < earlier.len() {
        let place = lemma_flat_place(rest, a);
        assert(rest[place.0] == strata[place.0]);
        assert(rest.take(place.0) =~= strata.take(place.0));
        place
    } else {
        assert(strata.take(strata.len() - 1) =~= rest);
        (strata.len() - 1, a - earlier.len())
    }
}

/// Earlier strata come first in evaluation order.
proof fn lemma_flat_offset(strata: Seq<ScheduledStratum>, i: int, j: int)
    requires
        0 <= i < j <= strata.len(),
    ensures
        flat_groups(strata.take(i)).len() + strata[i].sccs@.len() <= flat_groups(
            strata.take(j),
        ).len(),
    decreases j,
{
    let taken = strata.take(j);
    assert(taken.drop_last() =~= strata.take(j - 1));
    assert(taken.last() == strata[j - 1]);
    if i < j - 1 {
        lemma_flat_offset(strata, i, j - 1);
    }
}

/// The place of a group in evaluation order.
proof fn lemma_flat_index(strata: Seq<ScheduledStratum>, i: int, j: int)
    requires
        0 <= i < strata.len(),
        0 <= j < strata[i].sccs@.len(),
    ensures
        flat_groups(strata.take(i)).len() + j < flat_groups(strata).len(),
        flat_groups(strata)[flat_groups(strata.take(i)).len() + j]
            == strata[i].sccs@[j].predicates@,
    decreases strata.len(),
{
    let rest = strata.drop_last();
    if i < rest.len() {
        assert(rest[i] == strata[i]);
        assert(rest.take(i) =~= strata.take(i));
        lemma_flat_index(rest, i, j);
    } else {
        assert(strata.take(i) =~= rest);
    }
}

/// Where a predicate stands: its stratum, its group there, and that group in the order.
proof fn lemma_placed(
    program: ResolvedProgramView,
    schedule: ProgramSchedule,
    order: Seq<Seq<PredicateId>>,
    i: int,
    j: int,
    p: PredicateId,
) -> (k: int)
    requires
        schedule::is_evaluation_order(program, order),
        schedule::follows_order(schedule::program_dependencies(program), order, schedule.strata@),
        0 <= i < schedule.strata@.len(),
        0 <= j < schedule.strata@[i].sccs@.len(),
        schedule.strata@[i].sccs@[j].predicates@.contains(p),
    ensures
        0 <= k < order.len(),
        order[k] == schedule.strata@[i].sccs@[j].predicates@,
        level_positions(
            schedule::program_dependencies(program),
            order,
            schedule.strata@[i].index as nat,
        ).len() == schedule.strata@[i].sccs@.len(),
        k == level_positions(
            schedule::program_dependencies(program),
            order,
            schedule.strata@[i].index as nat,
        )[j],
        graph::is_level(schedule::program_dependencies(program), p, schedule.strata@[i].index as nat),
{
    let deps = schedule::program_dependencies(program);
    let stratum = schedule.strata@[i];
    let level = stratum.index as nat;
    lemma_level_positions(deps, order, level);
    let groups = schedule::groups_of(stratum.sccs@);
    assert(groups == schedule::at_level(deps, order, level));
    assert(groups[j] == stratum.sccs@[j].predicates@);
    let k = level_positions(deps, order, level)[j];
    assert(schedule::is_component(program, deps, order[k]));
    assert(order[k].contains(order[k][0]));
    assert(graph::mutual(deps, order[k][0], p));
    graph::lemma_mutual_levels_agree(deps, order[k][0], p, level);
    k
}

/// A predicate depends on predicates of its own or an earlier stratum, and negatively only on
/// those of an earlier one.
pub proof fn law_negation_crosses_strata(
    program: ResolvedProgramView,
    schedule: ProgramSchedule,
    d: int,
    head: (int, int),
    body: (int, int),
)
    requires
        schedule::schedules(program, schedule),
        0 <= d < schedule::program_dependencies(program).len(),
        0 <= head.0 < schedule.strata@.len(),
        0 <= head.1 < schedule.strata@[head.0].sccs@.len(),
        schedule.strata@[head.0].sccs@[head.1].predicates@.contains(
            schedule::program_dependencies(program)[d].head,
        ),
        0 <= body.0 < schedule.strata@.len(),
        0 <= body.1 < schedule.strata@[body.0].sccs@.len(),
        schedule.strata@[body.0].sccs@[body.1].predicates@.contains(
            schedule::program_dependencies(program)[d].body,
        ),
    ensures
        body.0 <= head.0,
        schedule::program_dependencies(program)[d].kind == DependencyKind::Negative ==> body.0 < head.0,
        body.0 == head.0 ==> body.1 <= head.1,
{
    let deps = schedule::program_dependencies(program);
    let dep = deps[d];
    let strata = schedule.strata@;
    let order = choose|order: Seq<Seq<PredicateId>>| #[trigger]
        schedule::is_evaluation_order(program, order) && schedule::follows_order(deps, order, strata);
    let kh = lemma_placed(program, schedule, order, head.0, head.1, dep.head);
    let kb = lemma_placed(program, schedule, order, body.0, body.1, dep.body);
    let lh = strata[head.0].index as nat;
    let lb = strata[body.0].index as nat;
    graph::lemma_levels_follow_dependencies(deps, d, lh, lb);
    if head.0 < body.0 {
        assert(strata[head.0].index < strata[body.0].index);
    }
    if body.0 == head.0 {
        assert(schedule::is_ready(deps, order[kh], order.take(kh)));
        assert(order[kh].contains(deps[d].head));
        if order[kh].contains(dep.body) {
            assert(order[kb].contains(dep.body));
            assert(kh == kb);
        } else {
            let m = choose|m: int|
                0 <= m < order.take(kh).len() && (#[trigger] order.take(kh)[m]).contains(dep.body);
            assert(order[m].contains(dep.body));
            assert(order[kb].contains(dep.body));
            assert(m == kb);
        }
        lemma_level_positions(deps, order, lh);
        let positions = level_positions(deps, order, lh);
        if head.1 < body.1 {
            assert(positions[head.1] < positions[body.1]);
        }
    }
}

/// Producers are evaluated before or with their consumers, and before them across a negation.
pub proof fn law_producers_before_consumers(
    program: ResolvedProgramView,
    schedule: ProgramSchedule,
    d: int,
    a: int,
    b: int,
)
    requires
        schedule::schedules(program, schedule),
        0 <= d < schedule::program_dependencies(program).len(),
        0 <= a < flat_groups(schedule.strata@).len(),
        flat_groups(schedule.strata@)[a].contains(schedule::program_dependencies(program)[d].head),
        0 <= b < flat_groups(schedule.strata@).len(),
        flat_groups(schedule.strata@)[b].contains(schedule::program_dependencies(program)[d].body),
    ensures
        b <= a,
        schedule::program_dependencies(program)[d].kind == DependencyKind::Negative ==> b < a,
{
    let strata = schedule.strata@;
    let head = lemma_flat_place(strata, a);
    let body = lemma_flat_place(strata, b);
    law_negation_crosses_strata(program, schedule, d, head, body);
    if body.0 < head.0 {
        lemma_flat_offset(strata, body.0, head.0);
    }
}

/// Every predicate of a program is evaluated in exactly one component.
pub proof fn law_components_partition(
    program: ResolvedProgramView,
    schedule: ProgramSchedule,
    p: PredicateId,
)
    requires
        schedule::schedules(program, schedule),
    ensures
        schedule::is_active(program, p) <==> schedule::held(flat_groups(schedule.strata@), p),
        forall|a: int, b: int|
            0 <= a < flat_groups(schedule.strata@).len() && 0 <= b < flat_groups(
                schedule.strata@,
            ).len() && (#[trigger] flat_groups(schedule.strata@)[a]).contains(p) && (
            #[trigger] flat_groups(schedule.strata@)[b]).contains(p) ==> a == b,
{
    let deps = schedule::program_dependencies(program);
    let strata = schedule.strata@;
    let flat = flat_groups(strata);
    let order = choose|order: Seq<Seq<PredicateId>>| #[trigger]
        schedule::is_evaluation_order(program, order) && schedule::follows_order(deps, order, strata);
    if schedule::is_active(program, p) {
        let k = choose|k: int| 0 <= k < order.len() && (#[trigger] order[k]).contains(p);
        assert(schedule::has_stratum(deps, order[k], strata));
        let i = choose|i: int|
            0 <= i < strata.len() && graph::is_level(
                deps,
                order[k][0],
                (#[trigger] strata[i]).index as nat,
            );
        let level = strata[i].index as nat;
        lemma_level_positions(deps, order, level);
        let positions = level_positions(deps, order, level);
        assert(positions.contains(k));
        let j = choose|j: int| 0 <= j < positions.len() && positions[j] == k;
        assert(schedule::groups_of(strata[i].sccs@)[j] == order[k]);
        lemma_flat_index(strata, i, j);
        let a = flat_groups(strata.take(i)).len() + j;
        assert(flat[a].contains(p));
    }
    if schedule::held(flat, p) {
        let a = choose|a: int| 0 <= a < flat.len() && (#[trigger] flat[a]).contains(p);
        let place = lemma_flat_place(strata, a);
        let k = lemma_placed(program, schedule, order, place.0, place.1, p);
        assert(schedule::is_component(program, deps, order[k]));
        assert(order[k].contains(p));
    }
    assert forall|a: int, b: int|
        0 <= a < flat.len() && 0 <= b < flat.len() && (#[trigger] flat[a]).contains(p) && (
        #[trigger] flat[b]).contains(p) implies a == b by {
        let x = lemma_flat_place(strata, a);
        let y = lemma_flat_place(strata, b);
        let kx = lemma_placed(program, schedule, order, x.0, x.1, p);
        let ky = lemma_placed(program, schedule, order, y.0, y.1, p);
        assert(order[kx].contains(p) && order[ky].contains(p));
        graph::lemma_level_unique(
            deps,
            p,
            strata[x.0].index as nat,
            strata[y.0].index as nat,
        );
        if x.0 < y.0 {
            assert(strata[x.0].index < strata[y.0].index);
        }
        if y.0 < x.0 {
            assert(strata[y.0].index < strata[x.0].index);
        }
        let level = strata[x.0].index as nat;
        lemma_level_positions(deps, order, level);
        let positions = level_positions(deps, order, level);
        if x.1 < y.1 {
            assert(positions[x.1] < positions[y.1]);
        }
        if y.1 < x.1 {
            assert(positions[y.1] < positions[x.1]);
        }
    }
}

/// Whether two lists of strata have the same levels, groups and recursion marks.
pub open spec fn same_strata(a: Seq<ScheduledStratum>, b: Seq<ScheduledStratum>) -> bool {
    &&& a.len() == b.len()
    &&& forall|i: int|
        0 <= i < a.len() ==> {
            &&& (#[trigger] a[i]).index == b[i].index
            &&& schedule::groups_of(a[i].sccs@) == schedule::groups_of(b[i].sccs@)
        }
    &&& forall|i: int, j: int|
        #![trigger a[i].sccs@[j]]
        0 <= i < a.len() && 0 <= j < a[i].sccs@.len() ==> a[i].sccs@[j].recursive
            == b[i].sccs@[j].recursive
}

/// Where one evaluation order has a component, another has it no earlier than they agree.
proof fn lemma_same_component(
    program: ResolvedProgramView,
    x: Seq<Seq<PredicateId>>,
    y: Seq<Seq<PredicateId>>,
    k: int,
) -> (l: int)
    requires
        schedule::is_evaluation_order(program, x),
        schedule::is_evaluation_order(program, y),
        0 <= k < x.len(),
        k <= y.len(),
        x.take(k) == y.take(k),
    ensures
        k <= l < y.len(),
        y[l] == x[k],
{
    let deps = schedule::program_dependencies(program);
    assert(schedule::is_component(program, deps, x[k]));
    let p = x[k][0];
    assert(x[k].contains(p));
    assert(schedule::is_active(program, p));
    assert(schedule::held(y, p));
    let l = choose|l: int| 0 <= l < y.len() && (#[trigger] y[l]).contains(p);
    assert(schedule::is_component(program, deps, y[l]));
    schedule::lemma_components_disjoint(program, x[k], y[l], p);
    if l < k {
        assert(x.take(k)[l] == y.take(k)[l]);
        assert(x[l].contains(p));
    }
    l
}

proof fn lemma_orders_agree(
    program: ResolvedProgramView,
    x: Seq<Seq<PredicateId>>,
    y: Seq<Seq<PredicateId>>,
    k: int,
)
    requires
        schedule::is_evaluation_order(program, x),
        schedule::is_evaluation_order(program, y),
        0 <= k <= x.len(),
    ensures
        k <= y.len(),
        x.take(k) == y.take(k),
    decreases k,
{
    if k == 0 {
        assert(x.take(0) =~= y.take(0));
    } else {
        let deps = schedule::program_dependencies(program);
        let n = k - 1;
        lemma_orders_agree(program, x, y, n);
        let l = lemma_same_component(program, x, y, n);
        let m = lemma_same_component(program, y, x, n);
        if l > n {
            assert(schedule::is_ready(deps, x[n], x.take(n)));
            assert(schedule::is_ready(deps, y[l], y.take(n)));
            assert(y[n][0].0 < y[l][0].0);
            if m > n {
                assert(schedule::is_ready(deps, y[n], y.take(n)));
                assert(schedule::is_ready(deps, x[m], x.take(n)));
                assert(x[n][0].0 < x[m][0].0);
            }
        }
        assert(y[n] == x[n]);
        assert(x.take(k) =~= x.take(n).push(x[n]));
        assert(y.take(k) =~= y.take(n).push(y[n]));
    }
}

/// A level that one list of strata has, another has too.
proof fn lemma_level_shared(
    deps: Seq<Dependency>,
    order: Seq<Seq<PredicateId>>,
    a: Seq<ScheduledStratum>,
    b: Seq<ScheduledStratum>,
    i: int,
) -> (j: int)
    requires
        schedule::follows_order(deps, order, a),
        schedule::follows_order(deps, order, b),
        0 <= i < a.len(),
    ensures
        0 <= j < b.len(),
        b[j].index == a[i].index,
{
    let level = a[i].index as nat;
    lemma_level_positions(deps, order, level);
    assert(a[i].sccs@.len() > 0);
    assert(schedule::groups_of(a[i].sccs@) == schedule::at_level(deps, order, level));
    let k = level_positions(deps, order, level)[0];
    assert(graph::is_level(deps, order[k][0], level));
    assert(schedule::has_stratum(deps, order[k], b));
    let j = choose|j: int|
        0 <= j < b.len() && graph::is_level(deps, order[k][0], (#[trigger] b[j]).index as nat);
    graph::lemma_level_unique(deps, order[k][0], level, b[j].index as nat);
    j
}

proof fn lemma_levels_agree(
    deps: Seq<Dependency>,
    order: Seq<Seq<PredicateId>>,
    a: Seq<ScheduledStratum>,
    b: Seq<ScheduledStratum>,
    k: int,
)
    requires
        schedule::follows_order(deps, order, a),
        schedule::follows_order(deps, order, b),
        0 <= k <= a.len(),
    ensures
        k <= b.len(),
        forall|i: int| 0 <= i < k ==> (#[trigger] a[i]).index == b[i].index,
    decreases k,
{
    if k > 0 {
        let n = k - 1;
        lemma_levels_agree(deps, order, a, b, n);
        let j = lemma_level_shared(deps, order, a, b, n);
        if j < n {
            assert(a[j].index == b[j].index);
            assert(a[j].index < a[n].index);
        }
        let i = lemma_level_shared(deps, order, b, a, n);
        if i < n {
            assert(a[i].index == b[i].index);
            assert(b[i].index < b[n].index);
        }
        if n < j {
            assert(b[n].index < b[j].index);
        }
        if n < i {
            assert(a[n].index < a[i].index);
        }
    }
}

/// A program has one schedule.
pub proof fn law_schedule_is_determined(
    program: ResolvedProgramView,
    a: ProgramSchedule,
    b: ProgramSchedule,
)
    requires
        schedule::schedules(program, a),
        schedule::schedules(program, b),
    ensures
        a.dependencies@ == b.dependencies@,
        same_strata(a.strata@, b.strata@),
{
    let deps = schedule::program_dependencies(program);
    let x = choose|order: Seq<Seq<PredicateId>>| #[trigger]
        schedule::is_evaluation_order(program, order) && schedule::follows_order(
            deps,
            order,
            a.strata@,
        );
    let y = choose|order: Seq<Seq<PredicateId>>| #[trigger]
        schedule::is_evaluation_order(program, order) && schedule::follows_order(
            deps,
            order,
            b.strata@,
        );
    lemma_orders_agree(program, x, y, x.len() as int);
    lemma_orders_agree(program, y, x, y.len() as int);
    assert(x.take(x.len() as int) =~= x);
    assert(y.take(y.len() as int) =~= y);
    assert(x == y);
    lemma_levels_agree(deps, x, a.strata@, b.strata@, a.strata@.len() as int);
    lemma_levels_agree(deps, x, b.strata@, a.strata@, b.strata@.len() as int);
    assert forall|i: int, j: int|
        #![trigger a.strata@[i].sccs@[j]]
        0 <= i < a.strata@.len() && 0 <= j < a.strata@[i].sccs@.len() implies a.strata@[i].sccs@[j].recursive
        == b.strata@[i].sccs@[j].recursive by {
        assert(a.strata@[i].index == b.strata@[i].index);
        let groups = schedule::groups_of(a.strata@[i].sccs@);
        assert(groups == schedule::groups_of(b.strata@[i].sccs@));
        assert(groups.len() == b.strata@[i].sccs@.len());
        assert(groups[j] == a.strata@[i].sccs@[j].predicates@);
        assert(groups[j] == b.strata@[i].sccs@[j].predicates@);
    }
}

} // verus!
