//! Scan bookkeeping: running totals with their warnings, and the exclusion
//! rule applied to each discovered path. Walking the directory tree itself
//! is a collaborator concern; the core only decides and counts.

use vstd::prelude::*;

verus! {

use crate::text::{contains_sub, has_substring};
use crate::types::Warning;

/// Running totals of one scan, with the warnings collected on the way.
#[derive(Debug)]
pub struct ScanStats {
    pub total_bytes: u64,
    pub file_count: u64,
    pub dir_count: u64,
    pub warnings: Vec<Warning>,
}

impl ScanStats {
    /// Fresh totals: everything zero, no warnings.
    pub fn new() -> (r: Self)
        ensures
            r.total_bytes == 0,
            r.file_count == 0,
            r.dir_count == 0,
            r.warnings@.len() == 0,
    {
        ScanStats { total_bytes: 0, file_count: 0, dir_count: 0, warnings: Vec::new() }
    }

    /// Counts one file of the given size.
    pub fn record_file(&mut self, size: u64)
        requires
            old(self).total_bytes + size <= u64::MAX,
            old(self).file_count < u64::MAX,
        ensures
            final(self).total_bytes == old(self).total_bytes + size,
            final(self).file_count == old(self).file_count + 1,
            final(self).dir_count == old(self).dir_count,
            final(self).warnings == old(self).warnings,
    {
        self.total_bytes = self.total_bytes + size;
        self.file_count = self.file_count + 1;
    }

    /// Counts one directory.
    pub fn record_dir(&mut self)
        requires
            old(self).dir_count < u64::MAX,
        ensures
            final(self).dir_count == old(self).dir_count + 1,
            final(self).total_bytes == old(self).total_bytes,
            final(self).file_count == old(self).file_count,
            final(self).warnings == old(self).warnings,
    {
        self.dir_count = self.dir_count + 1;
    }

    /// Records one per-entry failure; the scan itself goes on.
    pub fn record_warning(&mut self, warning: Warning)
        ensures
            final(self).warnings@ =~= old(self).warnings@.push(warning),
            final(self).total_bytes == old(self).total_bytes,
            final(self).file_count == old(self).file_count,
            final(self).dir_count == old(self).dir_count,
    {
        self.warnings.push(warning);
    }

    /// Sums another worker's totals into this one and appends its warnings;
    /// the summed quantities are order-independent.
    pub fn absorb(&mut self, other: ScanStats)
        requires
            old(self).total_bytes + other.total_bytes <= u64::MAX,
            old(self).file_count + other.file_count <= u64::MAX,
            old(self).dir_count + other.dir_count <= u64::MAX,
        ensures
            final(self).total_bytes == old(self).total_bytes + other.total_bytes,
            final(self).file_count == old(self).file_count + other.file_count,
            final(self).dir_count == old(self).dir_count + other.dir_count,
            final(self).warnings@ =~= old(self).warnings@ + other.warnings@,
    {
        self.total_bytes = self.total_bytes + other.total_bytes;
        self.file_count = self.file_count + other.file_count;
        self.dir_count = self.dir_count + other.dir_count;
        let mut rest = other.warnings;
        let ghost incoming = rest@;
        let ghost mut done: int = 0;
        proof {
            assert(self.warnings@ =~= old(self).warnings@ + incoming.take(0));
            assert(rest@ =~= incoming.skip(0));
        }
        while rest.len() > 0
            invariant
                0 <= done <= incoming.len(),
                rest@ =~= incoming.skip(done),
                self.warnings@ =~= old(self).warnings@ + incoming.take(done),
                self.total_bytes == old(self).total_bytes + other.total_bytes,
                self.file_count == old(self).file_count + other.file_count,
                self.dir_count == old(self).dir_count + other.dir_count,
            decreases rest@.len(),
        {
            let w = rest.remove(0);
            proof {
                assert(w == incoming[done]);
                assert(rest@ =~= incoming.skip(done + 1));
            }
            self.warnings.push(w);
            proof {
                assert(incoming.take(done + 1) =~= incoming.take(done).push(incoming[done]));
                assert(self.warnings@ =~= old(self).warnings@ + incoming.take(done + 1));
                done = done + 1;
            }
        }
        proof {
            assert(done == incoming.len());
            assert(incoming.take(incoming.len() as int) =~= incoming);
        }
    }
}

/// The scan policy the traversal collaborator honours: whether to follow
/// symbolic links, how deep to recurse, which paths to exclude, and whether
/// records need a modification time.
pub struct Scanner {
    pub follow_symlinks: bool,
    pub max_depth: Option<usize>,
    pub exclude_patterns: Vec<String>,
    pub need_modified: bool,
}

impl Scanner {
    /// Stores the scan policy.
    pub fn new(
        follow_symlinks: bool,
        max_depth: Option<usize>,
        exclude_patterns: Vec<String>,
        need_modified: bool,
    ) -> (r: Self)
        ensures
            r.follow_symlinks == follow_symlinks,
            r.max_depth == max_depth,
            r.exclude_patterns == exclude_patterns,
            r.need_modified == need_modified,
    {
        Scanner { follow_symlinks, max_depth, exclude_patterns, need_modified }
    }

    /// Whether a discovered path is excluded: it is exactly when some
    /// exclusion pattern occurs in the path.
    pub fn should_exclude(&self, path: &String) -> (r: bool)
        ensures
            r == exists|i: int|
                0 <= i < self.exclude_patterns@.len() && has_substring(
                    path@,
                    (#[trigger] self.exclude_patterns@[i])@,
                ),
    {
        let n = self.exclude_patterns.len();
        let mut i: usize = 0;
        while i < n
            invariant
                0 <= i <= n,
                n == self.exclude_patterns@.len(),
                forall|t: int|
                    0 <= t < i ==> !has_substring(
                        path@,
                        (#[trigger] self.exclude_patterns@[t])@,
                    ),
            decreases n - i,
        {
            if contains_sub(path.as_str(), self.exclude_patterns[i].as_str()) {
                proof {
                    assert(has_substring(path@, self.exclude_patterns@[i as int]@));
                }
                return true;
            }
            i = i + 1;
        }
        false
    }
}

} // verus!
