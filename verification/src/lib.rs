//! A git command wrapper that keeps a persistent model of how local branches
//! relate to one another (the "diffbase" tree) and ties branch lifecycle to
//! hosted pull/merge request tracking.
//!
//! The verified core is the diffbase store — a branch-dependency tree with
//! transactional mutations — together with the parsing and decision logic of
//! the command interception layer. Process spawning, repository introspection
//! and the hosted-provider clients live outside the library and hand it plain
//! values.

pub mod diffbase;
pub mod error;
pub mod git;
pub mod github;
pub mod gitlab;
pub mod text;

pub use crate::diffbase::Diffbase;
pub use crate::error::Error;
pub use crate::error::ErrorKind;
