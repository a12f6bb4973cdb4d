//! Values mean what their fields hold.
use vstd::prelude::*;

use crate::ast;
use crate::ast::{
    ConstantView, ResolvedAtom, ResolvedLiteral, ResolvedProgram, ResolvedRule, SourceAtom,
    SourceDeclaration, SourceLiteral, SourceProgram, SourceRule, SourceTerm, SourceValue, Spanned,
    TermView,
};
use crate::benchmark::BenchmarkConfig;
use crate::catalog::{CatalogError, CatalogErrorView, InternedValue, PredicateMetadata, ProgramCatalog};
use crate::database::{DatabaseError, DatabaseErrorView};
use crate::execution;
use crate::execution::ErrorView;
use crate::executor::{GenericErrorView, GenericExecutionError};
use crate::ingest;
use crate::ingest::DelimitedError;
use crate::lexer::{Diagnostic, Token, TokenKind, TokenKindView};
use crate::loader::{LoadError, LoadErrorView};
use crate::parser::ParseOutput;
use crate::relational;
use crate::relational::{
    GeneralProgramPlan, GeneralSccPlan, GeneralStratumPlan, PlannedAtom, RelationId,
    RelationalClausePlan,
};
use crate::resolve::ResolveOutput;
use crate::text;

verus! {

/// Lists mean what their items mean, in order.
pub proof fn law_lists<T: View>(items: Seq<T>, i: int)
    requires
        0 <= i < items.len(),
    ensures
        ast::views(items).len() == items.len(),
        ast::views(items)[i] == items[i]@,
{
}

/// Rows, facts and texts mean what their items mean, in order.
pub proof fn law_rows(
    rows: Seq<Vec<InternedValue>>,
    facts: Seq<(RelationId, Vec<u32>)>,
    texts: Seq<String>,
    i: int,
    k: int,
)
    ensures
        ingest::row_views(rows).len() == rows.len(),
        0 <= i < rows.len() ==> ingest::row_views(rows)[i].len() == rows[i]@.len(),
        0 <= i < rows.len() && 0 <= k < rows[i]@.len() ==> ingest::row_views(rows)[i][k]
            == rows[i]@[k]@,
        relational::fact_views(facts).len() == facts.len(),
        0 <= i < facts.len() ==> relational::fact_views(facts)[i] == (facts[i].0, facts[i].1@),
        text::text_views(texts).len() == texts.len(),
        0 <= i < texts.len() ==> text::text_views(texts)[i] == texts[i]@,
{
}

/// Values of programs and of databases.
pub proof fn law_values(number: u32, name: String)
    ensures
        SourceValue::U32(number)@ == ConstantView::U32(number),
        SourceValue::String(name)@ == ConstantView::String(name@),
        SourceValue::Symbol(name)@ == ConstantView::Symbol(name@),
        InternedValue::U32(number)@ == ConstantView::U32(number),
        InternedValue::String(name)@ == ConstantView::String(name@),
        InternedValue::Symbol(name)@ == ConstantView::Symbol(name@),
        SourceTerm::Variable(name)@ == TermView::Variable(name@),
        forall|value: SourceValue| #[trigger]
            SourceTerm::Constant(value)@ == TermView::Constant(value@),
{
}

/// The parts of a program.
pub proof fn law_programs(
    name: Spanned<String>,
    term: Spanned<SourceTerm>,
    atom: SourceAtom,
    literal: SourceLiteral,
    rule: SourceRule,
    declaration: SourceDeclaration,
    program: SourceProgram,
    i: int,
)
    ensures
        name@ == (name.value@, name.span),
        term@ == (term.value@, term.span),
        atom@.predicate == (atom.predicate.value@, atom.predicate.span),
        atom@.span == atom.span,
        atom@.terms.len() == atom.terms@.len(),
        0 <= i < atom.terms@.len() ==> atom@.terms[i] == (
            atom.terms@[i].value@,
            atom.terms@[i].span,
        ),
        literal@.negated == literal.negated,
        literal@.atom == literal.atom@,
        literal@.span == literal.span,
        rule@.head == rule.head@,
        rule@.span == rule.span,
        rule@.body.len() == rule.body@.len(),
        0 <= i < rule.body@.len() ==> rule@.body[i] == rule.body@[i]@,
        declaration@.predicate == (declaration.predicate.value@, declaration.predicate.span),
        declaration@.arity == declaration.arity,
        program@.rules.len() == program.rules@.len(),
        0 <= i < program.rules@.len() ==> program@.rules[i] == program.rules@[i]@,
        program@.declarations.len() == program.declarations@.len(),
        0 <= i < program.declarations@.len() ==> program@.declarations[i]
            == program.declarations@[i]@,
        program@.inputs.len() == program.inputs@.len(),
        0 <= i < program.inputs@.len() ==> program@.inputs[i] == (
            program.inputs@[i].value@,
            program.inputs@[i].span,
        ),
        program@.outputs.len() == program.outputs@.len(),
        0 <= i < program.outputs@.len() ==> program@.outputs[i] == (
            program.outputs@[i].value@,
            program.outputs@[i].span,
        ),
{
}

/// The parts of a resolved program.
pub proof fn law_resolved_programs(
    atom: ResolvedAtom,
    literal: ResolvedLiteral,
    rule: ResolvedRule,
    program: ResolvedProgram,
    i: int,
)
    ensures
        atom@.predicate == atom.predicate,
        atom@.terms == atom.terms@,
        atom@.span == atom.span,
        literal@.negated == literal.negated,
        literal@.atom == literal.atom@,
        literal@.span == literal.span,
        rule@.head == rule.head@,
        rule@.span == rule.span,
        rule@.body.len() == rule.body@.len(),
        0 <= i < rule.body@.len() ==> rule@.body[i] == rule.body@[i]@,
        rule@.variable_names.len() == rule.variable_names@.len(),
        0 <= i < rule.variable_names@.len() ==> rule@.variable_names[i]
            == rule.variable_names@[i]@,
        program@.rules.len() == program.rules@.len(),
        0 <= i < program.rules@.len() ==> program@.rules[i] == program.rules@[i]@,
        program@.declarations == program.declarations@,
        program@.outputs == program.outputs@,
{
}

/// Tokens, diagnostics, and what lexing, parsing and resolving give.
pub proof fn law_outputs_of_reading(
    token: Token,
    name: String,
    diagnostic: Diagnostic,
    parsed: ParseOutput,
    resolved: ResolveOutput,
    i: int,
)
    ensures
        token@.kind == token.kind@,
        token@.span == token.span,
        TokenKind::Ident(name)@ == TokenKindView::Ident(name@),
        TokenKind::Symbol(name)@ == TokenKindView::Symbol(name@),
        TokenKind::String(name)@ == TokenKindView::String(name@),
        forall|number: u32| #[trigger]
            TokenKind::Number(number)@ == TokenKindView::Number(number),
        TokenKind::Invalid@ == TokenKindView::Invalid,
        token.kind matches TokenKind::Mark(mark) ==> token@.kind == TokenKindView::Mark(mark),
        diagnostic@.message == diagnostic.message@,
        diagnostic@.span == diagnostic.span,
        parsed@.program == parsed.program@,
        parsed@.diagnostics.len() == parsed.diagnostics@.len(),
        0 <= i < parsed.diagnostics@.len() ==> parsed@.diagnostics[i] == parsed.diagnostics@[i]@,
        resolved@.program == resolved.program@,
        resolved@.diagnostics.len() == resolved.diagnostics@.len(),
        0 <= i < resolved.diagnostics@.len() ==> resolved@.diagnostics[i]
            == resolved.diagnostics@[i]@,
{
}

/// The parts of a plan.
pub proof fn law_plans(
    atom: PlannedAtom,
    clause: RelationalClausePlan,
    scc: GeneralSccPlan,
    stratum: GeneralStratumPlan,
    plan: GeneralProgramPlan,
    i: int,
)
    ensures
        atom@.relation == atom.relation,
        atom@.version == atom.version,
        atom@.terms == atom.terms@,
        clause@.target == clause.target,
        clause@.head == clause.head@,
        clause@.positive.len() == clause.positive@.len(),
        0 <= i < clause.positive@.len() ==> clause@.positive[i] == clause.positive@[i]@,
        clause@.negative.len() == clause.negative@.len(),
        0 <= i < clause.negative@.len() ==> clause@.negative[i] == clause.negative@[i]@,
        clause@.live_after.len() == clause.live_after@.len(),
        0 <= i < clause.live_after@.len() ==> clause@.live_after[i] == clause.live_after@[i]@,
        scc@.relations == scc.relations@,
        scc@.recursive == scc.recursive,
        scc@.seeds.len() == scc.seeds@.len(),
        0 <= i < scc.seeds@.len() ==> scc@.seeds[i] == scc.seeds@[i]@,
        scc@.recursive_variants.len() == scc.recursive_variants@.len(),
        0 <= i < scc.recursive_variants@.len() ==> scc@.recursive_variants[i]
            == scc.recursive_variants@[i]@,
        stratum@.index == stratum.index,
        stratum@.sccs.len() == stratum.sccs@.len(),
        0 <= i < stratum.sccs@.len() ==> stratum@.sccs[i] == stratum.sccs@[i]@,
        plan@.predicate_count == plan.predicate_count,
        plan@.facts.len() == plan.facts@.len(),
        0 <= i < plan.facts@.len() ==> plan@.facts[i] == (plan.facts@[i].0, plan.facts@[i].1@),
        plan@.strata.len() == plan.strata@.len(),
        0 <= i < plan.strata@.len() ==> plan@.strata[i] == plan.strata@[i]@,
        plan@.outputs == plan.outputs@,
{
}

/// Catalogs and configurations.
pub proof fn law_catalogs(
    predicate: PredicateMetadata,
    catalog: ProgramCatalog,
    config: BenchmarkConfig,
)
    ensures
        predicate@ == (predicate.name@, predicate.arity),
        catalog@.predicates == catalog.predicates@,
        catalog@.values == catalog.values@,
        config@.graph == config.graph@,
        config@.quick == config.quick,
        config@.samples == config.samples,
        config.output is None ==> config@.output is None,
        config.output matches Some(path) ==> config@.output == Some(path@),
{
}

/// Errors.
pub proof fn law_errors(
    delimited: DelimitedError,
    load: LoadError,
    catalog: CatalogError,
    database: DatabaseError,
    operator: execution::Error,
    component: GenericExecutionError,
)
    ensures
        delimited@.line == delimited.line,
        delimited@.column == delimited.column,
        delimited@.message == delimited.message@,
        load@ == match load {
            LoadError::GitLfsPointer(path) => LoadErrorView::GitLfsPointer(path@),
            LoadError::InvalidFieldCount { line } => LoadErrorView::InvalidFieldCount {
                line: line as nat,
            },
            LoadError::InvalidU32 { line, column, value } => LoadErrorView::InvalidU32 {
                line: line as nat,
                column: column as nat,
                value: value@,
            },
            LoadError::Storage(error) => LoadErrorView::Storage(error),
        },
        catalog@ == match catalog {
            CatalogError::IdSpaceExhausted { kind } => CatalogErrorView::IdSpaceExhausted {
                kind: kind@,
            },
            CatalogError::ArityConflict {
                predicate,
                existing,
                declared,
            } => CatalogErrorView::ArityConflict { predicate: predicate@, existing, declared },
        },
        database@ == match database {
            DatabaseError::Parse(found) => DatabaseErrorView::Parse(ast::views(found@)),
            DatabaseError::Resolve(found) => DatabaseErrorView::Resolve(ast::views(found@)),
            DatabaseError::Lowering(error) => DatabaseErrorView::Lowering(
                error.message@,
                error.span,
            ),
            DatabaseError::Execution(error) => DatabaseErrorView::Execution(error),
            DatabaseError::Catalog(error) => DatabaseErrorView::Catalog(error@),
            DatabaseError::Delimited(error) => DatabaseErrorView::Delimited(error@),
            DatabaseError::NoProgram => DatabaseErrorView::NoProgram,
            DatabaseError::NotRun => DatabaseErrorView::NotRun,
            DatabaseError::UnknownPredicate(name) => DatabaseErrorView::UnknownPredicate(name@),
            DatabaseError::Arity { predicate, expected, actual } => DatabaseErrorView::Arity {
                predicate: predicate@,
                expected,
                actual: actual as nat,
            },
        },
        operator@ == match operator {
            execution::Error::Storage(error) => ErrorView::Storage(error),
            execution::Error::TooManyRows(rows) => ErrorView::TooManyRows(rows as nat),
            execution::Error::MissingColumn { input, column } => ErrorView::MissingColumn {
                input: input@,
                column,
            },
            execution::Error::IndexSourceMismatch {
                relation_rows,
                index_rows,
            } => ErrorView::IndexSourceMismatch {
                relation_rows: relation_rows as nat,
                index_rows: index_rows as nat,
            },
            execution::Error::OutputTooLarge(rows) => ErrorView::OutputTooLarge(rows as nat),
        },
        component matches GenericExecutionError::Store(error) ==> component@
            == GenericErrorView::Store(error),
        component matches GenericExecutionError::Storage(error) ==> component@
            == GenericErrorView::Storage(error),
        component matches GenericExecutionError::Execution(error) ==> component@
            == GenericErrorView::Execution(error@),
        component matches GenericExecutionError::TargetOutsideScc(id) ==> component@
            == GenericErrorView::TargetOutsideScc(id),
        component matches GenericExecutionError::MissingRuleTarget(id) ==> component@
            == GenericErrorView::MissingRuleTarget(id),
        component matches GenericExecutionError::IterationLimit {
            limit,
            remaining_delta_rows,
        } ==> component@ == (GenericErrorView::IterationLimit { limit, remaining_delta_rows }),
{
}

} // verus!
