//! Construction of lexer tables for a table-driven parser generator.

pub mod bits;
pub mod build_lex_table;
pub mod builder;
pub mod built_laws;
pub mod character_set;
pub mod configs;
pub mod continuation;
pub mod continuation_laws;
pub mod cursor;
pub mod discovery_laws;
pub mod grammars;
pub mod group_laws;
pub mod groups;
pub mod hashing;
pub mod keyword_laws;
pub mod keywords;
pub mod large_set_laws;
pub mod large_sets;
pub mod lexer_laws;
pub mod lexing_laws;
pub mod main_laws;
pub mod minimize;
pub mod minimize_laws;
pub mod nfa;
pub mod order;
pub mod order_laws;
pub mod paths;
pub mod rules;
pub mod runs;
pub mod sort_laws;
pub mod sort_states;
pub mod sorted;
pub mod table_runs;
pub mod tables;
pub mod token_conflicts;
pub mod token_groups;
pub mod transitions;
