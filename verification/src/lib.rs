//! A persistent, hierarchical file-tagging store: stable file identities
//! that survive renames, an assignment engine that enforces the hierarchy's
//! exclusivity rules, set-theoretic queries over the tag/file graph, and a
//! reconciliation engine that merges re-edited tag definitions into the
//! live store without losing file links.

pub mod closure;
pub mod common;
pub mod filter;
pub mod handle_file;
pub mod hierarchy;
pub mod laws;
pub mod merge_tags;
pub mod numstr;
pub mod order;
pub mod relationship;
