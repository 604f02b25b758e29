//! One-way, content-addressed synchronisation of a directory tree.
//!
//! A tree is published as a manifest: one line per file, holding the
//! file's content digest and its path relative to the root. A client
//! compares its own tree with a fetched manifest, classifies every path
//! and derives the action that brings the local tree in line with the
//! published one.
pub mod digest;
pub mod executor;
pub mod location;
pub mod manifest;
pub mod reconcile;
pub mod relpath;
pub mod text;

pub use crate::executor::download;
pub use crate::manifest::generate;
pub use crate::reconcile::{aggregate, DumbItem};
