//! Module-graph construction for a bundler: a coordinator that turns entry files
//! into a de-duplicated, fully built dependency graph, one pipeline result at a time.

pub mod module;
pub mod graph;
pub mod coordinator;
pub mod assets;
pub mod pipeline;
pub mod order;
