//! A hierarchical, persisted memoization cache: values are addressed by a key of string
//! segments, kept in a tree-shaped document that is loaded from and persisted to a file,
//! and computed only when the key misses.

pub mod document;
pub mod github;
pub mod key;
pub mod memo;
pub mod remote;
pub mod store;
