//! Snapshots of directory trees and the classified difference between two of them.
//!
//! A backend lists the items under a root; the items, once found to have distinct paths,
//! make a [`drivers::Snapshot`]. Two snapshots, a source and a destination, are compared
//! by [`diffing::build_diff`], which reports every path that was added, modified, changed
//! in type or deleted. The records can be sorted and split by kind for display.
//!
//! The library does no input or output of its own. Walking a filesystem, talking to a
//! remote host and running the two crawls side by side are left to the caller, which
//! hands over what it read and is told what to make of it.

pub mod diffing;
pub mod drivers;
pub mod session;
