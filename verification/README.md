# Sparkalog

A Datalog engine whose parsing, validation, planning and evaluation are proved with Verus.

A program is read with spans and recovery, its predicates and values are interned, arities and rule
safety are checked, negative recursion is rejected, and the rules are put into strata of strongly
connected components. Two evaluators follow. The general one takes any arity, constants, join
chains, mutual recursion and stratified negation. The binary pipeline takes programs over binary
relations and runs them as joins, duplicate removal, differences and unions on `u32` columns, each
on one core or on a thread pool, as measured thresholds say. A single operator whose threshold
calls for a device is left to the caller, and `steps` tells a caller with a device which operator of
a fixpoint to run next, and where.

## Layout

- `src/` is the library. Its functions carry contracts, and Verus proves them.
  - Language: `lexer`, `parser`, `ast`, `printing`, `catalog`, `catalog_io`, `resolve`, `ingest`.
  - Planning: `graph`, `schedule`, `general`, `statistics`, `explain`, `subset`, `relational`.
  - Evaluation: `evaluation`, `execution_general`, `executor`, `execution_binary`, `recursion`,
    `steps`, `database`.
  - Columns and operators: `storage`, `workspace`, `index`, `row_set`, `bitmap`, `chunks`,
    `pairs`, `join`, `execution`, `placement`, `loader`.
  - Meaning: `semantics`, `rounds`, and the modules whose names end in `_laws`.
- `tests/` runs the library on values.
- `app/` is the command line: files, benchmarks, and the CUDA kernels behind their foreign
  interface. A graph file is read into memory as a whole before its lines are read.

## What is proved

- A finished evaluation is the least model of the program: it holds the facts, is closed under every
  rule, and is part of every store that is (`semantics`).
- The binary pipeline computes the same relations for every program that it takes, in ascending
  order (`binary_laws`). Its components reach the least closed relations (`rounds`).
- A program has one schedule, producers come before consumers, and negation crosses strata
  (`schedule_laws`).
- A result is fixed by the facts: neither a refused text, nor a second run, nor a fact that follows
  already changes an answer (`database_laws`). Every program finishes, and a larger limit on rounds
  changes nothing (`limit_laws`).
- Join order changes neither results nor reports, and ordering twice changes nothing
  (`statistics_laws`).
- A program of names, numbers and symbols that is written is read back (`printing_laws`). Delimited
  texts join line by line (`ingest_laws`).
- Resolved programs are safe (`resolve_laws`); identifiers are stable and arities fixed (`catalog`);
  a catalog that is written is read back (`catalog_io`).

## What is trusted

`parallel` calls rayon and `slice::sort_unstable`; `text` calls `String::from_iter` and the `Debug`
formatting of texts; `catalog_io` calls `String::from_utf8`; `row_set` calls hi_sparse_bitset. Each
such function says what it claims.
