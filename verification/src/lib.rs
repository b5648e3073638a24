//! Core logic of a markdown documentation generator for Rust crates:
//! metadata indexing, normal-dependency graph construction, transitive
//! closure resolution with exclusion sets, multi-target orchestration
//! with continue-on-error semantics, and master index generation.
//!
//! All file system access, subprocess handling and JSON decoding live
//! outside this crate; the functions here work on plain values and carry
//! verified contracts.

pub mod closure;
pub mod deps;
pub mod graph;
pub mod index;
pub mod lifecycle;
pub mod metadata;
pub mod orchestrator;
pub mod text;
