//! Build orchestration for a multi-package workspace.
//!
//! The crate models a workspace of named packages with declared dependencies,
//! derives a dependency graph, computes deduplicated topological build orders,
//! hashes each package's tracked files into a content digest, and derives the
//! content-addressed cache location and per-package build decisions from that
//! digest.  All file, process and environment access is left to the caller,
//! which hands the results in as plain values.

use vstd::prelude::*;

pub mod cache;
pub mod commands;
pub mod graph;
pub mod hash;
pub mod monorepo;
pub mod order;
pub mod text;

verus! {

/// Plain description of a workspace member, as read from its manifest.
pub struct PackageMetadata {
    pub name: String,
    pub options: BuildcOptions,
    pub dir: String,
    pub dependencies: Vec<String>,
}

/// Per-package build options, as read from a manifest's tool section.
pub struct BuildcOptions {
    pub cacheable: bool,
    pub out_dir: String,
    pub includes: Vec<String>,
    pub excludes: Vec<String>,
}

} // verus!
