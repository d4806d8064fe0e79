//! An index of the files under one directory root, keyed by canonical path
//! and grouped by content identity, with an incremental re-scan that reports
//! which content appeared and which vanished.
//!
//! `meta` holds the plain value types, `table` the association-list
//! machinery the index state rests on, `discover` the filesystem boundary,
//! `index` the index itself with its build and update algorithms, and `laws`
//! the proofs of what every incremental pass does.

pub mod discover;
pub mod index;
pub mod laws;
pub mod meta;
pub mod table;
