//! Comparing two published versions of a package: which dependencies were
//! added, removed or changed, how each dependency record is laid out as text,
//! and what is asked of the outside tools that fetch, unpack and diff.

pub mod canonical;
pub mod error;
pub mod list;
pub mod order;
pub mod reconcile;
pub mod record;
pub mod registry;
pub mod report;
pub mod text;
pub mod tools;
pub mod unified;
