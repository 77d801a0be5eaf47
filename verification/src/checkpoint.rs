//! The plain image of a scan's progress that a checkpoint carries.
//! Persisting and timing checkpoints are collaborator concerns.

use vstd::prelude::*;

verus! {

use crate::scanner::ScanStats;

/// The totals a checkpoint records.
#[derive(Debug, Clone)]
pub struct CheckpointStats {
    pub total_bytes: u64,
    pub file_count: u64,
    pub dir_count: u64,
}

impl CheckpointStats {
    /// Fresh progress: nothing scanned yet.
    pub fn new() -> (r: Self)
        ensures
            r.total_bytes == 0,
            r.file_count == 0,
            r.dir_count == 0,
    {
        CheckpointStats { total_bytes: 0, file_count: 0, dir_count: 0 }
    }

    /// Takes over the current scan totals.
    pub fn update_from_stats(&mut self, stats: &ScanStats)
        ensures
            final(self).total_bytes == stats.total_bytes,
            final(self).file_count == stats.file_count,
            final(self).dir_count == stats.dir_count,
    {
        self.total_bytes = stats.total_bytes;
        self.file_count = stats.file_count;
        self.dir_count = stats.dir_count;
    }
}

} // verus!
