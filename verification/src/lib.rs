//! Dependency-layer validation and projection for a tree of named modules.
//!
//! The crate models a registry of module declarations annotated with
//! dependency edges, validates that the edges form an acyclic graph whose
//! declaration order matches its topological order, and projects the
//! validated registry into per-module visibility wrappers.  All analyses
//! report structured diagnostics instead of aborting, so output is produced
//! even for invalid graphs.

pub mod cycle;
pub mod diagnostics;
pub mod existence;
pub mod expand;
pub mod graph;
pub mod laws;
pub mod names;
pub mod order;
pub mod paths;
pub mod project;
