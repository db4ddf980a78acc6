//! A race-free secure path resolution and open primitive.
//!
//! The resolver walks a textual path one component at a time against an
//! in-memory filesystem double, re-reads every symbolic link through the
//! currently trusted directory descriptor, re-evaluates an allow/deny policy
//! at every hop, and opens each name with symlink-following disabled, so that
//! no observation-then-use gap exists between deciding a component is safe
//! and opening it.

pub mod harness;
pub mod mockfs;
pub mod policy;
pub mod resolver;
pub mod path;
pub mod store;
