//! An Earley parsing engine: grammars, a chart recogniser that keeps every
//! derivation in a shared forest, evaluators that walk the forest, and a
//! front-end that reads grammars written in EBNF.

pub mod chart;
pub mod completeness;
pub mod derivation;
pub mod ebnf;
pub mod ebnf_tokenizer;
pub mod forest;
pub mod grammar;
pub mod parser;
pub mod totality;
pub mod trees;
