//! Merges directory subtrees into one target directory: finds every file
//! and symlink of a subtree without following symlinks, re-roots each under
//! the target, sets aside those whose destination is taken, plans the moves,
//! and finds the highest ancestor that can then be removed without taking
//! unrelated content along. Reading and changing the file system is left to
//! the caller, which hands each listing and probe result in.
pub mod effects;
pub mod listing;
pub mod moves;
pub mod path;
pub mod prune;
pub mod relative;
pub mod scan;
