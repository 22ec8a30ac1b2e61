//! An in-memory simulation of a hierarchical directory namespace.
//!
//! A [`DTree`] is an ordered tree of uniquely named child directories with no
//! file content. Directories are addressed by *paths*: sequences of segments,
//! each naming the next child to enter. A segment may not contain the
//! path-separator character `/`. [`OsState`] layers a current working
//! directory on top of one tree, so that creation and enumeration can be
//! expressed relative to it.

pub mod errors;
pub mod paths;
pub mod state;
pub mod tree;

pub use errors::DirError;
pub use state::OsState;
pub use tree::DEnt;
pub use tree::DTree;
