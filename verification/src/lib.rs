//! A nemesis-matching engine: deterministic tag embeddings, user profile
//! aggregation, an opposition score, and ranked, paginated discovery over an
//! in-process store, together with the input validation the service performs.

pub mod auth;
pub mod embedding;
pub mod generator;
pub mod profile;
pub mod order;
pub mod score;
pub mod secrets;
pub mod types;
pub mod engine;
pub mod user_types;
pub mod validate;

use vstd::prelude::*;

verus! {

} // verus!
