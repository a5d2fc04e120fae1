//! Bounded, crash-safe aggregation of directory sizes.
//!
//! A scan walks a directory tree and reports the true size of everything in
//! it, while the tree it hands back is pruned: only entries above a size
//! floor, only the largest children of each directory, and no more nodes
//! than a fixed budget. The sizes are exact whatever the pruning drops.
//!
//! The library decides; its host reads the disk. [`walk`] is the traversal
//! engine, a state machine over an explicit stack of open directories, fed
//! one directory entry at a time. [`retention`] holds the policy that picks
//! the children kept for display, [`progress`] the throttled counters, and
//! [`scan`] ties both to the walk. [`exactness`] proves that the sizes a walk
//! reports are those of the files on disk.

pub mod error;
pub mod exactness;
pub mod names;
pub mod node;
pub mod notice;
pub mod options;
pub mod progress;
pub mod retention;
pub mod scan;
pub mod walk;
