//! Backend of a small Markdown editor: path resolution, document open/save
//! outcomes and the bounded list of recently used documents.
//!
//! `/` separates path components everywhere; where Windows conventions
//! apply, `\` does too. Whether a path is absolute, and whether a file
//! exists, are facts of the platform that callers pass in.

pub mod paths;
pub mod recent;
pub mod error;
pub mod document;
