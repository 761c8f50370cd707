//! Backup and restore of a game's save-data directory tree.
//!
//! The crate holds the decisions of the two operations: the depth-first walk
//! over a directory tree, the re-rooting of the paths it yields, and the
//! choice of a session among the timestamped snapshots. Reading directories
//! and copying files is left to the caller.

pub mod decimal;
pub mod folders;
pub mod paths;
pub mod rdr;
pub mod session;
pub mod timestamp;
pub mod tree;
