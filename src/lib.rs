//! Hierarchical topic matching with bounded-repetition wildcards, and a
//! registry of subscribers keyed by payload type built on it.
//!
//! - [`path`] and [`grammar`]: paths such as `/floor1/*/lamp`, read from
//!   and written to text.
//! - [`path_tree`] and [`matching`]: a trie of payloads and the query that
//!   walks it and a path together with an explicit stack of jobs.
//! - [`data_lake`]: one tree per payload type.
//! - [`wildcard`]: the budget of a wildcard being consumed.
use vstd::prelude::*;

pub mod data_lake;
pub mod grammar;
pub mod matching;
pub mod path;
pub mod path_tree;
pub mod wildcard;

verus! {

} // verus!
