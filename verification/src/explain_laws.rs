//! What the lines of an explanation say.
use vstd::prelude::*;

use crate::catalog::CatalogView;
use crate::database;
use crate::database::ExecutionBackend;
use crate::explain;
use crate::relational::{
    ClauseView, PlanTerm, PlannedAtomView, ProgramPlanView, RelationId, RelationVersion,
    SccPlanView,
};
use crate::statistics;
use crate::text;

verus! {

/// A relation is shown under its name, and one without a name as a question mark.
pub proof fn law_relation_names(catalog: CatalogView, relation: RelationId)
    ensures
        (relation.0 as int) < catalog.predicates.len() ==> explain::name_of(catalog, relation)
            == catalog.predicates[relation.0 as int].0,
        (relation.0 as int) >= catalog.predicates.len() ==> explain::name_of(catalog, relation)
            == "?"@,
{
}

/// The line of a component names its relations in order, says whether it is recursive, and counts
/// its seeds and variants. The lines of the seeds follow, and then those of the variants.
pub proof fn law_component_lines(catalog: CatalogView, rows: Seq<usize>, scc: SccPlanView)
    ensures
        ({
            let names = text::joined(
                Seq::new(
                    scc.relations.len(),
                    |i: int| explain::name_of(catalog, scc.relations[i]),
                ),
                ", "@,
            );
            let counts = " seeds="@ + text::decimal(scc.seeds.len()) + " variants="@
                + text::decimal(scc.recursive_variants.len()) + "\n"@;
            let clauses = text::joined(
                Seq::new(
                    scc.seeds.len(),
                    |i: int| explain::clause_text(catalog, rows, scc.seeds[i]),
                ) + Seq::new(
                    scc.recursive_variants.len(),
                    |i: int| explain::clause_text(catalog, rows, scc.recursive_variants[i]),
                ),
                ""@,
            );
            &&& scc.recursive ==> explain::scc_text(catalog, rows, scc) == "  scc ["@ + names
                + "] recursive=true"@ + counts + clauses
            &&& !scc.recursive ==> explain::scc_text(catalog, rows, scc) == "  scc ["@ + names
                + "] recursive=false"@ + counts + clauses
        }),
{
    reveal_strlit("] recursive=");
    reveal_strlit("] recursive=true");
    reveal_strlit("] recursive=false");
    reveal_strlit("true");
    reveal_strlit("false");
    assert("] recursive="@ + "true"@ =~= "] recursive=true"@);
    assert("] recursive="@ + "false"@ =~= "] recursive=false"@);
    let names = text::joined(
        Seq::new(scc.relations.len(), |i: int| explain::name_of(catalog, scc.relations[i])),
        ", "@,
    );
    assert(explain::names_of(catalog, scc.relations) =~= Seq::new(
        scc.relations.len(),
        |i: int| explain::name_of(catalog, scc.relations[i]),
    ));
    let counts = " seeds="@ + text::decimal(scc.seeds.len()) + " variants="@ + text::decimal(
        scc.recursive_variants.len(),
    ) + "\n"@;
    let lines = Seq::new(
        scc.seeds.len(),
        |i: int| explain::clause_text(catalog, rows, scc.seeds[i]),
    ) + Seq::new(
        scc.recursive_variants.len(),
        |i: int| explain::clause_text(catalog, rows, scc.recursive_variants[i]),
    );
    assert(explain::clause_texts(catalog, rows, scc.seeds + scc.recursive_variants) =~= lines);
    let clauses = text::joined(lines, ""@);
    let found = explain::scc_text(catalog, rows, scc);
    if scc.recursive {
        assert(found =~= "  scc ["@ + names + ("] recursive="@ + "true"@) + counts + clauses);
    } else {
        assert(found =~= "  scc ["@ + names + ("] recursive="@ + "false"@) + counts + clauses);
    }
}

/// The line of a clause has its target, and then its atoms in the order in which they are joined,
/// the negated ones last.
pub proof fn law_clause_lines(catalog: CatalogView, rows: Seq<usize>, clause: ClauseView)
    ensures
        explain::clause_text(catalog, rows, clause) == "    "@ + explain::name_of(
            catalog,
            clause.target,
        ) + " <- "@ + text::joined(
            Seq::new(
                clause.positive.len(),
                |i: int| explain::positive_text(catalog, rows, clause.positive[i]),
            ) + Seq::new(
                clause.negative.len(),
                |i: int| "!"@ + explain::name_of(catalog, clause.negative[i].relation) + ".Full"@,
            ),
            " -> "@,
        ) + "\n"@,
{
    let sources = Seq::new(
        clause.positive.len(),
        |i: int| explain::positive_text(catalog, rows, clause.positive[i]),
    ) + Seq::new(
        clause.negative.len(),
        |i: int| "!"@ + explain::name_of(catalog, clause.negative[i].relation) + ".Full"@,
    );
    assert(explain::source_texts(catalog, rows, clause) =~= sources);
}

/// A positive atom has its relation, the version that it reads, and the rows expected of it.
pub proof fn law_atom_texts(catalog: CatalogView, rows: Seq<usize>, atom: PlannedAtomView)
    ensures
        ({
            let name = explain::name_of(catalog, atom.relation);
            let estimate = text::decimal(statistics::atom_estimate(atom, rows) as nat);
            explain::positive_text(catalog, rows, atom) == match atom.version {
                RelationVersion::Full => name + ".Full[~"@ + estimate + "]"@,
                RelationVersion::Delta => name + ".Delta[~"@ + estimate + "]"@,
                RelationVersion::Newt => name + ".Newt[~"@ + estimate + "]"@,
            }
        }),
{
    reveal_strlit(".");
    reveal_strlit("[~");
    reveal_strlit("Full");
    reveal_strlit("Delta");
    reveal_strlit("Newt");
    reveal_strlit(".Full[~");
    reveal_strlit(".Delta[~");
    reveal_strlit(".Newt[~");
    let name = explain::name_of(catalog, atom.relation);
    let estimate = text::decimal(statistics::atom_estimate(atom, rows) as nat);
    let found = explain::positive_text(catalog, rows, atom);
    match atom.version {
        RelationVersion::Full => {
            assert("."@ + "Full"@ + "[~"@ =~= ".Full[~"@);
            assert(found =~= name + ("."@ + "Full"@ + "[~"@) + estimate + "]"@);
        },
        RelationVersion::Delta => {
            assert("."@ + "Delta"@ + "[~"@ =~= ".Delta[~"@);
            assert(found =~= name + ("."@ + "Delta"@ + "[~"@) + estimate + "]"@);
        },
        RelationVersion::Newt => {
            assert("."@ + "Newt"@ + "[~"@ =~= ".Newt[~"@);
            assert(found =~= name + ("."@ + "Newt"@ + "[~"@) + estimate + "]"@);
        },
    }
}

/// A plan is its strata in order, each with its number and its components in order. As many rows are
/// expected of a relation as there are facts of it.
pub proof fn law_plan_lines(catalog: CatalogView, plan: ProgramPlanView)
    ensures
        ({
            let rows = statistics::fact_rows(plan.facts, plan.predicate_count);
            explain::plan_text(catalog, plan) == text::joined(
                Seq::new(
                    plan.strata.len(),
                    |s: int|
                        "stratum "@ + text::decimal(plan.strata[s].index as nat) + "\n"@
                            + text::joined(
                            Seq::new(
                                plan.strata[s].sccs.len(),
                                |i: int| explain::scc_text(catalog, rows, plan.strata[s].sccs[i]),
                            ),
                            ""@,
                        ),
                ),
                ""@,
            )
        }),
{
    let rows = statistics::fact_rows(plan.facts, plan.predicate_count);
    let parts = Seq::new(
        plan.strata.len(),
        |s: int|
            "stratum "@ + text::decimal(plan.strata[s].index as nat) + "\n"@ + text::joined(
                Seq::new(
                    plan.strata[s].sccs.len(),
                    |i: int| explain::scc_text(catalog, rows, plan.strata[s].sccs[i]),
                ),
                ""@,
            ),
    );
    let own = Seq::new(
        plan.strata.len(),
        |i: int| explain::stratum_text(catalog, rows, plan.strata[i]),
    );
    assert forall|s: int| 0 <= s < own.len() implies own[s] == parts[s] by {
        assert(explain::scc_texts(catalog, rows, plan.strata[s].sccs) =~= Seq::new(
            plan.strata[s].sccs.len(),
            |i: int| explain::scc_text(catalog, rows, plan.strata[s].sccs[i]),
        ));
    }
    assert(own =~= parts);
}

/// The names of the two backends.
pub proof fn law_backend_names()
    ensures
        database::backend_name(ExecutionBackend::BinaryHybrid) == "BinaryHybrid"@,
        database::backend_name(ExecutionBackend::GeneralCpu) == "GeneralCpu"@,
{
}

/// The number of facts of a relation is one more with each of them.
pub proof fn law_facts_are_counted(
    facts: Seq<(RelationId, Seq<u32>)>,
    fact: (RelationId, Seq<u32>),
    relation: RelationId,
)
    ensures
        statistics::fact_count(Seq::empty(), relation) == 0,
        statistics::fact_count(facts.push(fact), relation) == statistics::fact_count(
            facts,
            relation,
        ) + if fact.0 == relation {
            1nat
        } else {
            0nat
        },
{
    assert(facts.push(fact).drop_last() =~= facts);
}

/// The rows expected of an atom: those of its relation, or very many where there are none or nothing
/// is known; a quarter of them where it reads the newest, and an eighth for each constant, but at
/// least one.
pub proof fn law_estimates(atom: PlannedAtomView, rows: Seq<usize>, constant: PlanTerm, other: PlanTerm)
    requires
        constant is Value,
        !(other is Value),
    ensures
        ({
            let r = atom.relation.0 as int;
            let plain = PlannedAtomView { terms: Seq::empty(), ..atom };
            let known: int = if r >= rows.len() {
                usize::MAX as int / 4
            } else if rows[r] == 0 {
                usize::MAX as int / 8
            } else {
                rows[r] as int
            };
            &&& atom.version != RelationVersion::Delta ==> statistics::atom_estimate(plain, rows)
                == known
            &&& atom.version == RelationVersion::Delta ==> statistics::atom_estimate(plain, rows)
                == if known / 4 > 1 {
                known / 4
            } else {
                1
            }
            &&& ({
                let before = statistics::atom_estimate(atom, rows) as int;
                let narrower = PlannedAtomView { terms: atom.terms.push(constant), ..atom };
                let same = PlannedAtomView { terms: atom.terms.push(other), ..atom };
                &&& statistics::atom_estimate(same, rows) == before
                &&& statistics::atom_estimate(narrower, rows) == if before / 8 > 1 {
                    before / 8
                } else {
                    1
                }
            })
        }),
{
    assert(atom.terms.push(constant).drop_last() =~= atom.terms);
    assert(atom.terms.push(other).drop_last() =~= atom.terms);
}

/// As many rows are expected of each relation as there are facts of it.
pub proof fn law_expected_rows(facts: Seq<(RelationId, Seq<u32>)>, count: usize, relation: RelationId)
    requires
        relation.0 < count,
        statistics::fact_count(facts, relation) <= usize::MAX,
    ensures
        statistics::fact_rows(facts, count).len() == count,
        statistics::fact_rows(facts, count)[relation.0 as int] == statistics::fact_count(
            facts,
            relation,
        ),
{
}

} // verus!
