//! The logic of `cix`, a tool that searches a codebase, answers questions about it and edits it.
//!
//! - `text`, `strings`, `numbers`: characters, texts and numbers, and what is done to them.
//! - `syntax`, `source`, `line_chunks`, `cuts`, `chunking`, `parser`: source files, their syntax
//!   trees, and the pieces and symbols they are made of.
//! - `embedding`, `keywords`, `index`, `search`: what is stored of a file and how it is found.
//! - `json`, `turns`, `edits`, `edit_run`, `tools`, `prompts`, `history`, `agent`: the agent that
//!   works on a codebase turn by turn.
//! - `tables`: the lists of kinds, words and extensions that all of these go by.
use vstd::prelude::*;

pub mod agent;
pub mod chunking;
pub mod cuts;
pub mod edit_run;
pub mod edits;
pub mod embedding;
pub mod history;
pub mod index;
pub mod json;
pub mod keywords;
pub mod line_chunks;
pub mod numbers;
pub mod parser;
pub mod prompts;
pub mod search;
pub mod source;
pub mod strings;
pub mod syntax;
pub mod tables;
pub mod text;
pub mod tools;
pub mod turns;

verus! {

} // verus!
