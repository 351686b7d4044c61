//! Move inference between two snapshots of a directory tree.
//!
//! A snapshot records, for every regular file below a root, its relative
//! path together with its size and modification time. Comparing a base
//! snapshot with a target snapshot yields a change-set: the paths that
//! vanished, the paths that are new, and the new paths that are probably
//! an old file under another name, each paired with that old file. A move
//! is inferred from metadata alone and may be confirmed by comparing the
//! bytes of the two files; an inferred move can then be replayed as a
//! copy-on-write clone.
//!
//! Everything in this crate works on values in memory. Walking a
//! directory, reading files and issuing the clone request are left to the
//! caller, which feeds the results in and carries the decisions out.

pub mod catalog;
pub mod changeset;
pub mod content;
pub mod differ;
pub mod entry;
pub mod index;
pub mod key;
pub mod laws;
pub mod path;
pub mod reflink;
pub mod scan;

