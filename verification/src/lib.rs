//! Rebase-safety analysis over a snapshot of a repository's commit graph.
//!
//! Before a branch's history is rewritten, the analyzer determines the exact
//! set of commits the rewrite will recreate (the rewrite range) and reports
//! every other reference whose history reaches into that set, so the caller
//! can abort or proceed deliberately.

pub mod analyzer;
pub mod command;
pub mod engine;
pub mod graph;
pub mod laws;
pub mod names;
pub mod repo;
