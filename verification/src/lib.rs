//! Semantic similarity search for git repositories.

use vstd::prelude::*;

pub mod batches;
pub mod chunks;
pub mod definition;
pub mod git;
pub mod hooks;
pub mod index;
pub mod lists;
pub mod model;
pub mod order;
pub mod report;
pub mod search;
pub mod sha_map;
pub mod text;
pub mod tokens;
pub mod update;
pub mod wire;

verus! {

} // verus!
