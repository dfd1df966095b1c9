//! In-memory simulation of a hierarchical directory tree.
//!
//! A [`DTree`] is a directory node holding an ordered collection of named
//! child directories; it offers child creation, traversal to a named
//! descendant (read-only and mutable) and enumeration of the paths to all
//! reachable leaf directories.  An [`OsState`] wraps a tree together with a
//! current working directory and offers the same operations relative to it.

pub mod error;
pub mod laws;
pub mod model;
pub mod session;
pub mod tree;

pub use error::DirError;
pub use session::OsState;
pub use tree::DEnt;
pub use tree::DTree;
