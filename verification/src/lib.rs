//! A Datalog engine with verified storage, relational operators, planning and evaluation.
pub mod ast;
pub mod benchmark;
pub mod binary_laws;
pub mod bitmap;
pub mod catalog;
pub mod catalog_io;
pub mod chunks;
pub mod component_laws;
pub mod database;
pub mod database_laws;
pub mod device;
pub mod diagnostic_laws;
pub mod evaluation;
pub mod execution;
pub mod execution_binary;
pub mod execution_general;
pub mod executor;
pub mod explain;
pub mod explain_laws;
pub mod format_laws;
pub mod general;
pub mod grammar_laws;
pub mod graph;
pub mod index;
pub mod ingest;
pub mod ingest_laws;
pub mod join;
pub mod lexer;
pub mod lexer_laws;
pub mod limit_laws;
pub mod loader;
pub mod loader_laws;
pub mod meaning_laws;
pub mod message_laws;
pub mod operation_laws;
pub mod operator_laws;
pub mod pairs;
pub mod parallel;
pub mod parser;
pub mod placement;
pub mod plan_laws;
pub mod printing;
pub mod printing_laws;
pub mod record_laws;
pub mod recursion;
pub mod relational;
pub mod resolution_laws;
pub mod resolve;
pub mod resolve_laws;
pub mod round_laws;
pub mod rounds;
pub mod row_set;
pub mod schedule;
pub mod schedule_laws;
pub mod semantics;
pub mod sorted;
pub mod statistics;
pub mod statistics_laws;
pub mod steps;
pub mod storage;
pub mod store_laws;
pub mod subset;
pub mod subset_laws;
pub mod text;
pub mod text_laws;
pub mod tuples;
pub mod view_laws;
pub mod workspace;
