//! What a user may rely on, stated from what is written and read to what is answered.
//!
//! Each statement here is over the policy file, the `cargo metadata` document and the results
//! themselves: lists, graph edges, paths and words. None of them says how an answer is found.

pub mod acceptance;
pub mod activations;
pub mod closure;
pub mod commands;
pub mod counts;
pub mod documents;
pub mod graphs;
pub mod manifests;
pub mod places;
pub mod policy;
pub mod reports;
pub mod runs;
pub mod selections;
pub mod verdicts;
pub mod words;
