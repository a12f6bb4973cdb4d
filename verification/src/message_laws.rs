//! How programs, facts and errors read, letter by letter.
use vstd::prelude::*;

use crate::ast::{
    AtomView, ConstantView, DeclarationView, LiteralView, ProgramView, RuleView, Span, TermView,
};
use crate::catalog;
use crate::catalog::{CatalogErrorView, PredicateId};
use crate::database;
use crate::database::DatabaseErrorView;
use crate::device;
use crate::device::DeviceError;
use crate::execution;
use crate::execution::ErrorView;
use crate::execution_general::GeneralExecutionError;
use crate::executor;
use crate::executor::{GenericErrorView, RelationStoreError};
use crate::ingest;
use crate::ingest::DelimitedErrorView;
use crate::lexer::DiagnosticView;
use crate::loader;
use crate::loader::LoadErrorView;
use crate::printing;
use crate::recursion::FixpointError;
use crate::relational::RelationId;
use crate::schedule::StratificationError;
use crate::storage;
use crate::text;

verus! {

/// Numbers are written in decimal, symbols behind an apostrophe, and variables by their names.
pub proof fn law_written_terms(number: u32, name: Seq<char>)
    ensures
        printing::term_text(TermView::Constant(ConstantView::U32(number))) == text::decimal(
            number as nat,
        ),
        printing::term_text(TermView::Constant(ConstantView::Symbol(name))) == seq!['\''] + name,
        printing::term_text(TermView::Constant(ConstantView::String(name))) == text::quoted(name),
        printing::term_text(TermView::Variable(name)) == name,
{
    reveal_strlit("'");
    assert("'"@ =~= seq!['\'']);
}

/// An atom is written as its name, and its terms in parentheses, in order.
pub proof fn law_written_atoms(atom: AtomView)
    ensures
        printing::atom_text(atom) == atom.predicate.0.push('(') + text::joined(
            Seq::new(atom.terms.len(), |i: int| printing::term_text(atom.terms[i].0)),
            seq![',', ' '],
        ).push(')'),
{
    reveal_strlit("(");
    reveal_strlit(")");
    reveal_strlit(", ");
    assert(", "@ =~= seq![',', ' ']);
    let listed = text::joined(
        Seq::new(atom.terms.len(), |i: int| printing::term_text(atom.terms[i].0)),
        ", "@,
    );
    assert(printing::atom_text(atom) =~= atom.predicate.0.push('(') + listed.push(')'));
}

/// A negated literal is written behind an exclamation mark.
pub proof fn law_written_literals(literal: LiteralView)
    ensures
        literal.negated ==> printing::literal_text(literal) == seq!['!'] + printing::atom_text(
            literal.atom,
        ),
        !literal.negated ==> printing::literal_text(literal) == printing::atom_text(literal.atom),
{
    reveal_strlit("!");
    assert("!"@ =~= seq!['!']);
}

/// A rule is written as its head, `:-` and its literals in order unless it is a fact, and a dot.
pub proof fn law_written_rules(rule: RuleView)
    ensures
        rule.body.len() == 0 ==> printing::rule_text(rule) == printing::atom_text(rule.head).push(
            '.',
        ),
        rule.body.len() > 0 ==> printing::rule_text(rule) == printing::atom_text(rule.head) + seq![
            ' ',
            ':',
            '-',
            ' ',
        ] + text::joined(
            Seq::new(rule.body.len(), |i: int| printing::literal_text(rule.body[i])),
            seq![',', ' '],
        ).push('.'),
{
    reveal_strlit(".");
    reveal_strlit(" :- ");
    reveal_strlit(", ");
    assert(", "@ =~= seq![',', ' ']);
    assert(" :- "@ =~= seq![' ', ':', '-', ' ']);
    let listed = text::joined(
        Seq::new(rule.body.len(), |i: int| printing::literal_text(rule.body[i])),
        ", "@,
    );
    if rule.body.len() == 0 {
        assert(printing::rule_text(rule) =~= printing::atom_text(rule.head).push('.'));
    } else {
        assert(printing::rule_text(rule) =~= printing::atom_text(rule.head) + " :- "@ + listed.push(
            '.',
        ));
    }
}

/// A declaration is written with as many attributes as it has, numbered from zero.
pub proof fn law_written_declarations(declaration: DeclarationView)
    ensures
        printing::declaration_text(declaration) == ".decl "@ + declaration.predicate.0 + "("@
            + text::joined(
            Seq::new(
                declaration.arity as nat,
                |i: int| "x"@ + text::decimal(i as nat) + ": any"@,
            ),
            ", "@,
        ) + ")"@,
{
}

/// A program is written statement by statement, each on a line of its own: the declarations first,
/// then the inputs, the rules and the outputs, in order.
pub proof fn law_written_programs(program: ProgramView)
    ensures
        printing::program_text(program) == text::joined(
            Seq::new(
                program.declarations.len(),
                |i: int| printing::declaration_text(program.declarations[i]).push('\n'),
            ) + Seq::new(
                program.inputs.len(),
                |i: int| (".input "@ + program.inputs[i].0).push('\n'),
            ) + Seq::new(
                program.rules.len(),
                |i: int| printing::rule_text(program.rules[i]).push('\n'),
            ) + Seq::new(
                program.outputs.len(),
                |i: int| (".output "@ + program.outputs[i].0).push('\n'),
            ),
            Seq::empty(),
        ),
{
    let a = printing::declaration_lines(program);
    let b = printing::name_lines(".input "@, program.inputs);
    let c = printing::rule_lines(program);
    let d = printing::name_lines(".output "@, program.outputs);
    lemma_lined(a);
    lemma_lined(b);
    lemma_lined(c);
    lemma_lined(d);
    lemma_joined_adds(ended(a), ended(b));
    lemma_joined_adds(ended(a) + ended(b), ended(c));
    lemma_joined_adds(ended(a) + ended(b) + ended(c), ended(d));
    assert(ended(a) =~= Seq::new(
        program.declarations.len(),
        |i: int| printing::declaration_text(program.declarations[i]).push('\n'),
    ));
    assert(ended(b) =~= Seq::new(
        program.inputs.len(),
        |i: int| (".input "@ + program.inputs[i].0).push('\n'),
    ));
    assert(ended(c) =~= Seq::new(
        program.rules.len(),
        |i: int| printing::rule_text(program.rules[i]).push('\n'),
    ));
    assert(ended(d) =~= Seq::new(
        program.outputs.len(),
        |i: int| (".output "@ + program.outputs[i].0).push('\n'),
    ));
}

/// Texts with a line feed behind each.
spec fn ended(lines: Seq<Seq<char>>) -> Seq<Seq<char>> {
    Seq::new(lines.len(), |i: int| lines[i].push('\n'))
}

proof fn lemma_lined(lines: Seq<Seq<char>>)
    ensures
        printing::lined(lines) == text::joined(ended(lines), Seq::empty()),
    decreases lines.len(),
{
    reveal_strlit("\n");
    let none = Seq::<char>::empty();
    if lines.len() == 0 {
        assert(ended(lines) =~= Seq::empty());
        assert(printing::lined(lines) =~= text::joined(ended(lines), none));
    } else {
        lemma_lined(lines.drop_last());
        assert(ended(lines).drop_last() =~= ended(lines.drop_last()));
        lemma_joined_last(ended(lines));
        assert(printing::lined(lines) =~= text::joined(ended(lines.drop_last()), none)
            + ended(lines).last());
    }
}

proof fn lemma_joined_last(texts: Seq<Seq<char>>)
    requires
        texts.len() > 0,
    ensures
        text::joined(texts, Seq::empty()) == text::joined(texts.drop_last(), Seq::empty())
            + texts.last(),
{
    let none = Seq::<char>::empty();
    if texts.len() == 1 {
        assert(texts.drop_last() =~= Seq::empty());
        assert(text::joined(texts, none) =~= texts.last());
    } else {
        assert(text::joined(texts, none) =~= text::joined(texts.drop_last(), none) + texts.last());
    }
}

proof fn lemma_joined_adds(a: Seq<Seq<char>>, b: Seq<Seq<char>>)
    ensures
        text::joined(a + b, Seq::empty()) == text::joined(a, Seq::empty()) + text::joined(
            b,
            Seq::empty(),
        ),
    decreases b.len(),
{
    let none = Seq::<char>::empty();
    if b.len() == 0 {
        assert(a + b =~= a);
        assert(text::joined(b, none) =~= none);
        assert(text::joined(a, none) + text::joined(b, none) =~= text::joined(a, none));
    } else {
        lemma_joined_adds(a, b.drop_last());
        assert((a + b).drop_last() =~= a + b.drop_last());
        lemma_joined_last(a + b);
        lemma_joined_last(b);
        assert((a + b).last() == b.last());
        assert(text::joined(a + b, none) =~= text::joined(a, none) + text::joined(b, none));
    }
}

/// A tuple is written as the fact that states it: its values in order, as in a program.
pub proof fn law_written_facts(predicate: Seq<char>, values: Seq<ConstantView>)
    ensures
        printing::fact_text(predicate, values) == predicate.push('(') + text::joined(
            Seq::new(
                values.len(),
                |i: int| printing::term_text(TermView::Constant(values[i])),
            ),
            seq![',', ' '],
        ) + seq![')', '.'],
{
    reveal_strlit("(");
    reveal_strlit(").");
    reveal_strlit(", ");
    assert(", "@ =~= seq![',', ' ']);
    assert(")."@ =~= seq![')', '.']);
    let own = Seq::new(values.len(), |i: int| printing::constant_text(values[i]));
    let terms = Seq::new(
        values.len(),
        |i: int| printing::term_text(TermView::Constant(values[i])),
    );
    assert(own =~= terms);
    assert(printing::fact_text(predicate, values) =~= predicate.push('(') + text::joined(
        terms,
        ", "@,
    ) + ")."@);
}

/// What a catalog error says.
pub proof fn law_catalog_messages(
    kind: Seq<char>,
    predicate: Seq<char>,
    existing: usize,
    declared: usize,
)
    ensures
        catalog::catalog_error_text(CatalogErrorView::IdSpaceExhausted { kind }) == kind
            + " ID space is exhausted"@,
        catalog::catalog_error_text(
            CatalogErrorView::ArityConflict { predicate, existing, declared },
        ) == "predicate "@ + predicate + " already has arity "@ + text::decimal(existing as nat)
            + ", not "@ + text::decimal(declared as nat),
{
}

/// What the errors of reading data say: the line, the column and the problem, in this order.
pub proof fn law_reading_messages(
    line: nat,
    column: nat,
    value: Seq<char>,
    error: DelimitedErrorView,
)
    ensures
        ingest::delimited_error_text(error) == text::decimal(error.line) + ":"@ + text::decimal(
            error.column,
        ) + ": "@ + error.message,
        loader::load_error_text(LoadErrorView::GitLfsPointer(value)) == value
            + " is a Git LFS pointer, not materialized graph data"@,
        loader::load_error_text(LoadErrorView::InvalidFieldCount { line }) == "line "@
            + text::decimal(line) + " does not contain exactly two fields"@,
        loader::load_error_text(LoadErrorView::InvalidU32 { line, column, value }) == "line "@
            + text::decimal(line) + ", column "@ + text::decimal(column) + " is not a u32: "@
            + text::quoted(value),
        forall|inner: storage::Error| #[trigger]
            loader::load_error_text(LoadErrorView::Storage(inner)) == inner.text(),
{
}

/// What a database error says. Of several diagnostics the first is given.
pub proof fn law_database_messages(
    first: DiagnosticView,
    more: Seq<DiagnosticView>,
    name: Seq<char>,
    span: Span,
    expected: usize,
    actual: nat,
)
    ensures
        database::database_error_text(DatabaseErrorView::Parse(seq![first] + more))
            == "Datalog parse failed: "@ + first.message,
        database::database_error_text(DatabaseErrorView::Resolve(seq![first] + more))
            == "Datalog validation failed: "@ + first.message,
        database::database_error_text(DatabaseErrorView::Parse(Seq::empty()))
            == "Datalog parse failed: "@ + "unknown error"@,
        database::database_error_text(DatabaseErrorView::Resolve(Seq::empty()))
            == "Datalog validation failed: "@ + "unknown error"@,
        database::database_error_text(DatabaseErrorView::Lowering(name, span)) == name,
        database::database_error_text(DatabaseErrorView::NoProgram)
            == "no Datalog program is loaded"@,
        database::database_error_text(DatabaseErrorView::NotRun)
            == "the Datalog program has not been run"@,
        database::database_error_text(DatabaseErrorView::UnknownPredicate(name)) == "predicate "@
            + name + " is not defined by this program"@,
        database::database_error_text(
            DatabaseErrorView::Arity { predicate: name, expected, actual },
        ) == "predicate "@ + name + " expects "@ + text::decimal(expected as nat)
            + " values, not "@ + text::decimal(actual),
        forall|inner: CatalogErrorView| #[trigger]
            database::database_error_text(DatabaseErrorView::Catalog(inner))
                == catalog::catalog_error_text(inner),
        forall|inner: DelimitedErrorView| #[trigger]
            database::database_error_text(DatabaseErrorView::Delimited(inner))
                == ingest::delimited_error_text(inner),
        forall|limit: usize| #[trigger]
            database::database_error_text(
                DatabaseErrorView::Execution(GeneralExecutionError::IterationLimit { limit }),
            ) == "fixpoint did not converge within "@ + text::decimal(limit as nat)
                + " iterations"@,
{
}

/// What a storage error says.
pub proof fn law_storage_messages(a: usize, b: usize)
    ensures
        storage::Error::LengthOverflow.text() == "buffer length overflows its byte size"@,
        (storage::Error::LogicalLengthExceedsCapacity { len: a, capacity: b }).text()
            == "logical length "@ + text::decimal(a as nat) + " exceeds allocation capacity "@
            + text::decimal(b as nat),
        (storage::Error::MismatchedColumnLength { expected: a, actual: b }).text()
            == "column length "@ + text::decimal(b as nat) + " does not match relation length "@
            + text::decimal(a as nat),
        storage::Error::TooManyRows(a).text() == text::decimal(a as nat)
            + " rows cannot be represented by u32 row IDs"@,
        storage::Error::ZeroSizedType.text()
            == "CUDA-managed buffers cannot contain zero-sized types"@,
{
}

/// What the errors of the operators say.
pub proof fn law_operator_messages(rows: nat, others: nat, input: Seq<char>, column: u32)
    ensures
        execution::error_text(ErrorView::TooManyRows(rows)) == text::decimal(rows)
            + " rows cannot be represented by u32 row IDs"@,
        execution::error_text(ErrorView::MissingColumn { input, column }) == input
            + " relation has no column "@ + text::decimal(column as nat),
        execution::error_text(
            ErrorView::IndexSourceMismatch { relation_rows: rows, index_rows: others },
        ) == "right relation has "@ + text::decimal(rows) + " rows but its index has "@
            + text::decimal(others),
        execution::error_text(ErrorView::OutputTooLarge(rows)) == "join output of "@
            + text::decimal(rows) + " rows exceeds addressable memory"@,
        forall|inner: storage::Error| #[trigger]
            execution::error_text(ErrorView::Storage(inner)) == inner.text(),
{
}

/// What the errors of evaluating components say.
pub proof fn law_component_messages(
    id: RelationId,
    column: u32,
    limit: usize,
    rows: usize,
    full: usize,
    delta: usize,
)
    ensures
        RelationStoreError::Missing(id).text() == "relation "@ + text::decimal(id.0 as nat)
            + " is not registered"@,
        RelationStoreError::Duplicate(id).text() == "relation "@ + text::decimal(id.0 as nat)
            + " is already registered"@,
        RelationStoreError::NotRecursive(id).text() == "relation "@ + text::decimal(id.0 as nat)
            + " has no DELTA/NEWT state"@,
        (RelationStoreError::ArityMismatch { full, delta }).text() == "FULL arity "@
            + text::decimal(full as nat) + " differs from DELTA arity "@ + text::decimal(
            delta as nat,
        ),
        executor::generic_error_text(GenericErrorView::EmptyScc)
            == "recursive SCC has no relations"@,
        executor::generic_error_text(GenericErrorView::TargetOutsideScc(id)) == "rule target "@
            + text::decimal(id.0 as nat) + " is outside its SCC"@,
        executor::generic_error_text(GenericErrorView::DuplicateRuleTarget(id)) == "relation "@
            + text::decimal(id.0 as nat) + " has multiple rules"@,
        executor::generic_error_text(GenericErrorView::MissingRuleTarget(id)) == "relation "@
            + text::decimal(id.0 as nat) + " has no recursive rule"@,
        executor::generic_error_text(GenericErrorView::MissingPlanColumn { relation: id, column })
            == "relation "@ + text::decimal(id.0 as nat) + " has no planned column "@
            + text::decimal(column as nat),
        executor::generic_error_text(
            GenericErrorView::IterationLimit { limit, remaining_delta_rows: rows },
        ) == "recursive SCC did not converge within "@ + text::decimal(limit as nat)
            + " iterations; "@ + text::decimal(rows as nat) + " delta rows remain"@,
        (FixpointError::IterationLimit { limit, remaining_delta_rows: rows }).text()
            == "fixpoint did not converge within "@ + text::decimal(limit as nat)
            + " iterations; "@ + text::decimal(rows as nat) + " delta rows remain"@,
{
}

/// What the errors of scheduling and of the device say. A negative code has its sign before it.
pub proof fn law_other_messages(head: PredicateId, body: PredicateId, error: DeviceError)
    ensures
        (StratificationError::NegativeCycle { head, body }).text() == "negative dependency "@
            + text::decimal(head.0 as nat) + " -> "@ + text::decimal(body.0 as nat)
            + " occurs inside a recursive SCC"@,
        error.code >= 0 ==> error.text() == error.operation@ + " failed with CUDA error "@
            + text::decimal(error.code as nat),
        error.code < 0 ==> error.text() == error.operation@ + " failed with CUDA error -"@
            + text::decimal((-error.code) as nat),
{
    reveal_strlit("-");
    reveal_strlit(" failed with CUDA error ");
    reveal_strlit(" failed with CUDA error -");
    assert(" failed with CUDA error "@ + "-"@ =~= " failed with CUDA error -"@);
    if error.code < 0 {
        assert(error.text() =~= error.operation@ + (" failed with CUDA error "@ + "-"@)
            + text::decimal((-error.code) as nat));
    }
}

} // verus!
