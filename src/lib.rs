//! Turns the outputs of a Bazel action-graph query into a consolidated,
//! dependency-ordered crate graph for rust-analyzer's `rust-project.json`.
//!
//! The library covers the computational core: resolving output paths from
//! the parent-linked path-fragment table, joining actions to their targets,
//! merging crate specifications that describe one compilation unit, and
//! ordering the merged units so that every crate follows its dependencies.
//! Running Bazel, reading and writing files and JSON decoding are left to
//! the caller.
pub mod aquery;
pub mod build_files;
pub mod consolidate;
pub mod crate_spec;
pub mod graph;
pub mod order;
pub mod rust_project;
pub mod text;
