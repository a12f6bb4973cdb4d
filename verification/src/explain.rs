//! Plans as text.
use vstd::prelude::*;

use crate::ast;
use crate::catalog::{CatalogView, PredicateId, ProgramCatalog};
use crate::relational::{
    ClauseView, GeneralProgramPlan, GeneralSccPlan, GeneralStratumPlan, PlannedAtom,
    PlannedAtomView, ProgramPlanView, RelationId, RelationVersion, RelationalClausePlan,
    SccPlanView, StratumPlanView,
};
use crate::statistics;
use crate::statistics::{estimated_atom_rows, PlanStatistics};
use crate::text;
use crate::text::{decimal_text, flag_text, join_texts};

verus! {

/// The name of a relation, or a question mark.
pub open spec fn name_of(catalog: CatalogView, relation: RelationId) -> Seq<char> {
    if (relation.0 as int) < catalog.predicates.len() {
        catalog.predicates[relation.0 as int].0
    } else {
        "?"@
    }
}

/// The names of some relations.
pub open spec fn names_of(catalog: CatalogView, relations: Seq<RelationId>) -> Seq<Seq<char>> {
    Seq::new(relations.len(), |i: int| name_of(catalog, relations[i]))
}

pub open spec fn version_name(version: RelationVersion) -> Seq<char> {
    match version {
        RelationVersion::Full => "Full"@,
        RelationVersion::Delta => "Delta"@,
        RelationVersion::Newt => "Newt"@,
    }
}

/// A positive atom: its relation, the version it reads, and the rows expected of it.
pub open spec fn positive_text(
    catalog: CatalogView,
    statistics: Seq<usize>,
    atom: PlannedAtomView,
) -> Seq<char> {
    name_of(catalog, atom.relation) + "."@ + version_name(atom.version) + "[~"@ + text::decimal(
        statistics::atom_estimate(atom, statistics) as nat,
    ) + "]"@
}

/// A negative atom.
pub open spec fn negative_text(catalog: CatalogView, atom: PlannedAtomView) -> Seq<char> {
    "!"@ + name_of(catalog, atom.relation) + ".Full"@
}

/// The atoms of a clause in the order in which they are used.
pub open spec fn source_texts(
    catalog: CatalogView,
    statistics: Seq<usize>,
    clause: ClauseView,
) -> Seq<Seq<char>> {
    Seq::new(
        clause.positive.len(),
        |i: int| positive_text(catalog, statistics, clause.positive[i]),
    ) + Seq::new(clause.negative.len(), |i: int| negative_text(catalog, clause.negative[i]))
}

pub open spec fn clause_text(
    catalog: CatalogView,
    statistics: Seq<usize>,
    clause: ClauseView,
) -> Seq<char> {
    "    "@ + name_of(catalog, clause.target) + " <- "@ + text::joined(
        source_texts(catalog, statistics, clause),
        " -> "@,
    ) + "\n"@
}

pub open spec fn clause_texts(
    catalog: CatalogView,
    statistics: Seq<usize>,
    clauses: Seq<ClauseView>,
) -> Seq<Seq<char>> {
    Seq::new(clauses.len(), |i: int| clause_text(catalog, statistics, clauses[i]))
}

/// A component: a line on the whole of it, then a line for each clause.
pub open spec fn scc_text(catalog: CatalogView, statistics: Seq<usize>, scc: SccPlanView) -> Seq<
    char,
> {
    "  scc ["@ + text::joined(names_of(catalog, scc.relations), ", "@) + "] recursive="@
        + text::flag(scc.recursive) + " seeds="@ + text::decimal(scc.seeds.len()) + " variants="@
        + text::decimal(scc.recursive_variants.len()) + "\n"@ + text::joined(
        clause_texts(catalog, statistics, scc.seeds + scc.recursive_variants),
        ""@,
    )
}

pub open spec fn scc_texts(
    catalog: CatalogView,
    statistics: Seq<usize>,
    sccs: Seq<SccPlanView>,
) -> Seq<Seq<char>> {
    Seq::new(sccs.len(), |i: int| scc_text(catalog, statistics, sccs[i]))
}

pub open spec fn stratum_text(
    catalog: CatalogView,
    statistics: Seq<usize>,
    stratum: StratumPlanView,
) -> Seq<char> {
    "stratum "@ + text::decimal(stratum.index as nat) + "\n"@ + text::joined(
        scc_texts(catalog, statistics, stratum.sccs),
        ""@,
    )
}

/// A plan, stratum by stratum.
pub open spec fn plan_text(catalog: CatalogView, plan: ProgramPlanView) -> Seq<char> {
    let statistics = statistics::fact_rows(plan.facts, plan.predicate_count);
    text::joined(
        Seq::new(
            plan.strata.len(),
            |i: int| stratum_text(catalog, statistics, plan.strata[i]),
        ),
        ""@,
    )
}

fn relation_name<'a>(catalog: &'a ProgramCatalog, relation: RelationId) -> (name: &'a str)
    ensures
        name@ == name_of(catalog@, relation),
{
    match catalog.predicates.get(PredicateId(relation.0)) {
        Some(metadata) => metadata.name.as_str(),
        None => "?",
    }
}

fn positive_line(catalog: &ProgramCatalog, statistics: &PlanStatistics, atom: &PlannedAtom) -> (line:
    String)
    ensures
        line@ == positive_text(catalog@, statistics@, atom@),
{
    let mut line = relation_name(catalog, atom.relation).to_owned();
    line.append(".");
    line.append(
        match atom.version {
            RelationVersion::Full => "Full",
            RelationVersion::Delta => "Delta",
            RelationVersion::Newt => "Newt",
        },
    );
    line.append("[~");
    let estimate = decimal_text(estimated_atom_rows(atom, statistics));
    line.append(estimate.as_str());
    line.append("]");
    line
}

fn clause_line(
    catalog: &ProgramCatalog,
    statistics: &PlanStatistics,
    clause: &RelationalClausePlan,
) -> (line: String)
    ensures
        line@ == clause_text(catalog@, statistics@, clause@),
{
    let ghost expected = source_texts(catalog@, statistics@, clause@);
    let mut sources: Vec<String> = Vec::new();
    let mut i: usize = 0;
    while i < clause.positive.len()
        invariant
            i <= clause.positive@.len(),
            expected == source_texts(catalog@, statistics@, clause@),
            text::text_views(sources@) == expected.take(i as int),
        decreases clause.positive@.len() - i,
    {
        let line = positive_line(catalog, statistics, &clause.positive[i]);
        proof {
            assert(clause@.positive[i as int] == clause.positive@[i as int]@);
            assert(text::text_views(sources@.push(line)) =~= expected.take(i as int).push(line@));
            assert(expected.take(i as int).push(line@) =~= expected.take(i + 1));
        }
        sources.push(line);
        i += 1;
    }
    let mut j: usize = 0;
    while j < clause.negative.len()
        invariant
            j <= clause.negative@.len(),
            expected == source_texts(catalog@, statistics@, clause@),
            text::text_views(sources@) == expected.take(clause.positive@.len() + j),
        decreases clause.negative@.len() - j,
    {
        let mut line = "!".to_owned();
        line.append(relation_name(catalog, clause.negative[j].relation));
        line.append(".Full");
        proof {
            let place = clause.positive@.len() + j;
            assert(clause@.negative[j as int] == clause.negative@[j as int]@);
            assert(expected[place] == negative_text(catalog@, clause@.negative[j as int]));
            assert(text::text_views(sources@.push(line)) =~= expected.take(place).push(line@));
            assert(expected.take(place).push(line@) =~= expected.take(place + 1));
        }
        sources.push(line);
        j += 1;
    }
    assert(text::text_views(sources@) =~= expected);
    let mut line = "    ".to_owned();
    line.append(relation_name(catalog, clause.target));
    line.append(" <- ");
    let list = join_texts(&sources, " -> ");
    line.append(list.as_str());
    line.append("\n");
    line
}

/// Appends the lines of some clauses.
fn push_clauses(
    lines: &mut Vec<String>,
    catalog: &ProgramCatalog,
    statistics: &PlanStatistics,
    clauses: &Vec<RelationalClausePlan>,
)
    ensures
        text::text_views(final(lines)@) == text::text_views(old(lines)@) + clause_texts(
            catalog@,
            statistics@,
            ast::views(clauses@),
        ),
{
    let ghost expected = clause_texts(catalog@, statistics@, ast::views(clauses@));
    let mut i: usize = 0;
    assert(text::text_views(lines@) + expected.take(0) =~= text::text_views(lines@));
    while i < clauses.len()
        invariant
            i <= clauses@.len(),
            expected == clause_texts(catalog@, statistics@, ast::views(clauses@)),
            text::text_views(lines@) == text::text_views(old(lines)@) + expected.take(i as int),
        decreases clauses@.len() - i,
    {
        let line = clause_line(catalog, statistics, &clauses[i]);
        proof {
            assert(ast::views(clauses@)[i as int] == clauses@[i as int]@);
            assert(text::text_views(lines@.push(line)) =~= text::text_views(lines@).push(line@));
            assert(expected.take(i as int).push(line@) =~= expected.take(i + 1));
            assert((text::text_views(old(lines)@) + expected.take(i as int)).push(line@)
                =~= text::text_views(old(lines)@) + expected.take(i + 1));
        }
        lines.push(line);
        i += 1;
    }
    assert(expected.take(i as int) =~= expected);
}

fn scc_lines(catalog: &ProgramCatalog, statistics: &PlanStatistics, scc: &GeneralSccPlan) -> (lines:
    String)
    ensures
        lines@ == scc_text(catalog@, statistics@, scc@),
{
    let mut names: Vec<String> = Vec::new();
    let mut i: usize = 0;
    while i < scc.relations.len()
        invariant
            i <= scc.relations@.len(),
            text::text_views(names@) == names_of(catalog@, scc.relations@).take(i as int),
        decreases scc.relations@.len() - i,
    {
        let name = relation_name(catalog, scc.relations[i]).to_owned();
        proof {
            assert(text::text_views(names@.push(name)) =~= text::text_views(names@).push(name@));
            assert(names_of(catalog@, scc.relations@).take(i as int).push(name@) =~= names_of(
                catalog@,
                scc.relations@,
            ).take(i + 1));
        }
        names.push(name);
        i += 1;
    }
    assert(text::text_views(names@) =~= names_of(catalog@, scc.relations@));
    let mut lines = "  scc [".to_owned();
    let list = join_texts(&names, ", ");
    lines.append(list.as_str());
    lines.append("] recursive=");
    lines.append(flag_text(scc.recursive));
    lines.append(" seeds=");
    let seeds = decimal_text(scc.seeds.len());
    lines.append(seeds.as_str());
    lines.append(" variants=");
    let variants = decimal_text(scc.recursive_variants.len());
    lines.append(variants.as_str());
    lines.append("\n");
    let mut clauses: Vec<String> = Vec::new();
    push_clauses(&mut clauses, catalog, statistics, &scc.seeds);
    push_clauses(&mut clauses, catalog, statistics, &scc.recursive_variants);
    assert(text::text_views(clauses@) =~= clause_texts(
        catalog@,
        statistics@,
        scc@.seeds + scc@.recursive_variants,
    ));
    let text = join_texts(&clauses, "");
    lines.append(text.as_str());
    lines
}

fn stratum_lines(
    catalog: &ProgramCatalog,
    statistics: &PlanStatistics,
    stratum: &GeneralStratumPlan,
) -> (lines: String)
    ensures
        lines@ == stratum_text(catalog@, statistics@, stratum@),
{
    let ghost expected = scc_texts(catalog@, statistics@, stratum@.sccs);
    let mut parts: Vec<String> = Vec::new();
    let mut i: usize = 0;
    while i < stratum.sccs.len()
        invariant
            i <= stratum.sccs@.len(),
            expected == scc_texts(catalog@, statistics@, stratum@.sccs),
            text::text_views(parts@) == expected.take(i as int),
        decreases stratum.sccs@.len() - i,
    {
        let part = scc_lines(catalog, statistics, &stratum.sccs[i]);
        proof {
            assert(stratum@.sccs[i as int] == stratum.sccs@[i as int]@);
            assert(text::text_views(parts@.push(part)) =~= expected.take(i as int).push(part@));
            assert(expected.take(i as int).push(part@) =~= expected.take(i + 1));
        }
        parts.push(part);
        i += 1;
    }
    assert(text::text_views(parts@) =~= expected);
    let mut lines = "stratum ".to_owned();
    let index = decimal_text(stratum.index);
    lines.append(index.as_str());
    lines.append("\n");
    let text = join_texts(&parts, "");
    lines.append(text.as_str());
    lines
}

/// Writes a plan out: its strata, their components, and the clauses of each in the order in which
/// their atoms are joined, with the rows expected of each atom.
pub fn explain_general(plan: &GeneralProgramPlan, catalog: &ProgramCatalog) -> (explanation: String)
    requires
        forall|i: int|
            0 <= i < plan@.facts.len() ==> (#[trigger] plan@.facts[i]).0.0 < plan.predicate_count,
    ensures
        explanation@ == plan_text(catalog@, plan@),
{
    let statistics = PlanStatistics::from_plan(plan);
    let ghost expected = Seq::new(
        plan@.strata.len(),
        |i: int| stratum_text(catalog@, statistics@, plan@.strata[i]),
    );
    let mut parts: Vec<String> = Vec::new();
    let mut i: usize = 0;
    while i < plan.strata.len()
        invariant
            i <= plan.strata@.len(),
            expected == Seq::new(
                plan@.strata.len(),
                |k: int| stratum_text(catalog@, statistics@, plan@.strata[k]),
            ),
            text::text_views(parts@) == expected.take(i as int),
        decreases plan.strata@.len() - i,
    {
        let part = stratum_lines(catalog, &statistics, &plan.strata[i]);
        proof {
            assert(plan@.strata[i as int] == plan.strata@[i as int]@);
            assert(text::text_views(parts@.push(part)) =~= expected.take(i as int).push(part@));
            assert(expected.take(i as int).push(part@) =~= expected.take(i + 1));
        }
        parts.push(part);
        i += 1;
    }
    assert(text::text_views(parts@) =~= expected);
    join_texts(&parts, "")
}

} // verus!
