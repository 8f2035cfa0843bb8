//! A content-addressed tree engine over a git object store.
//!
//! Trees are immutable directory snapshots identified by their content
//! hash. This crate computes the set of paths whose entries differ
//! between two such snapshots, and builds new snapshots by applying a
//! sparse batch of path edits (upserts and deletions) to an existing
//! snapshot or to nothing at all, collapsing directories that become
//! empty. The store itself is `git2`'s object database; everything the
//! engine believes about it is stated on the small set of trusted
//! wrappers in [`store`].

pub mod bytes;
pub mod diff;
pub mod entry;
pub mod hydrate;
pub mod laws;
pub mod messages;
pub mod model;
pub mod oid;
pub mod store;
pub mod tree;
