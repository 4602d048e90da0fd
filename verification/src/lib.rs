//! Scaffolds new Rust projects from remote, versioned templates.
//!
//! Given a project name, a kind (standalone or workspace) and optional
//! extras (CI workflow, container setup), the library produces a populated
//! directory tree with its `{{ variable }}` placeholders substituted.
//!
//! The library computes over an in-memory model of the directory tree
//! ([`fstree::Fs`]); every operation on it is specified and verified
//! against a map from paths to contents.  Reading the real disk into the
//! model, writing results back, and running the git subprocesses that
//! refresh the template cache are the embedding program's concern.

pub mod args;
pub mod config;
pub mod error;
pub mod fstree;
pub mod gitcmd;
pub mod interpolate;
pub mod project;
