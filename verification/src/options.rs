//! Per-scan configuration and the scan's running tallies.

use vstd::prelude::*;

verus! {

/// Retention floor used when the caller names none: 1 MiB.
pub const DEFAULT_MIN_NODE_BYTES: u64 = 1_048_576;

/// How many children a directory of the returned tree may show.
pub const DEFAULT_MAX_CHILDREN_PER_DIR: usize = 1_000;

/// How many nodes the returned tree may hold, its root included.
pub const DEFAULT_MAX_TOTAL_NODES: usize = 10_000;

/// What bounds the returned tree. The sizes it reports are never bounded.
#[derive(Debug, Clone, Copy, PartialEq, Eq, Structural)]
pub struct ScanOptions {
    /// A file or directory below this size is not shown.
    pub min_node_bytes: u64,
    /// At most this many children are shown per directory.
    pub max_children_per_dir: usize,
    /// At most this many nodes are admitted to the tree, the root included.
    pub max_total_nodes: usize,
}

impl ScanOptions {
    /// The options of a scan whose caller asked for the retention floor
    /// `min_node_bytes`, or for none.
    pub fn for_request(min_node_bytes: Option<u64>) -> (opts: ScanOptions)
        ensures
            opts.min_node_bytes == match min_node_bytes {
                Some(floor) => floor,
                None => DEFAULT_MIN_NODE_BYTES,
            },
            opts.max_children_per_dir == DEFAULT_MAX_CHILDREN_PER_DIR,
            opts.max_total_nodes == DEFAULT_MAX_TOTAL_NODES,
    {
        ScanOptions {
            min_node_bytes: match min_node_bytes {
                Some(floor) => floor,
                None => DEFAULT_MIN_NODE_BYTES,
            },
            max_children_per_dir: DEFAULT_MAX_CHILDREN_PER_DIR,
            max_total_nodes: DEFAULT_MAX_TOTAL_NODES,
        }
    }
}

impl Default for ScanOptions {
    fn default() -> (opts: ScanOptions)
        ensures
            opts.min_node_bytes == DEFAULT_MIN_NODE_BYTES,
            opts.max_children_per_dir == DEFAULT_MAX_CHILDREN_PER_DIR,
            opts.max_total_nodes == DEFAULT_MAX_TOTAL_NODES,
    {
        ScanOptions::for_request(None)
    }
}

/// What a scan has had to leave out so far.
#[derive(Debug, Clone, Copy, PartialEq, Eq, Structural)]
pub struct ScanStats {
    /// Entries that could not be read and were passed over.
    pub skipped_entries: u64,
    /// Whether a candidate was dropped because the node budget was spent.
    pub hit_node_limit: bool,
}

impl Default for ScanStats {
    fn default() -> (stats: ScanStats)
        ensures
            stats.skipped_entries == 0,
            !stats.hit_node_limit,
    {
        ScanStats { skipped_entries: 0, hit_node_limit: false }
    }
}

} // verus!
