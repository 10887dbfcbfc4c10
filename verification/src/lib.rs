//! A dependency policy enforcer for Cargo workspaces.
//!
//! The library turns one `cargo metadata` document and one policy file into verdicts. It
//! performs no input or output of its own: callers hand it plain values and get plain
//! values back. Besides those it reads the clock, to say how long traversals took.

pub mod arrays;
mod bits;
pub mod buckets;
pub mod cli;
mod clock;
pub mod config;
pub mod decode;
pub mod document;
pub mod error;
pub mod features;
pub mod files;
pub mod globs;
pub mod graph;
mod index;
pub mod manifest;
pub mod metadata;
pub mod names;
pub mod order;
pub mod paths;
pub mod pipeline;
pub mod platform;
pub mod promises;
pub mod report;
pub mod rules;
pub mod source;
pub mod text;
pub mod timings;
pub mod tour;
