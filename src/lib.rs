//! Static analysis and automatic fixing of feature propagation in Rust workspaces.
//!
//! The library holds the feature graph, the lints that query it and the
//! format-preserving editor for the `[features]` arrays of crate manifests.

pub mod autofix;
pub mod commands;
pub mod cmd;
pub mod dag;
pub mod editor;
pub mod features;
pub mod grammar;
pub mod lint;
pub mod metadata;
pub mod semver;
pub mod text;
pub mod workflow;
