//! Normalization and validation of commit messages that follow a
//! `type(scope): subject` header convention.

pub mod text;
pub mod header;
pub mod message;
pub mod laws;

pub use header::capitalize;
pub use message::{normalize_commit_message, CommitError};
