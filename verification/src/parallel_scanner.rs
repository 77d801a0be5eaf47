//! The parallel scan policy: a worker count, auto-detected from the thread
//! pool when requested as zero, plus the same traversal policy the
//! sequential scanner carries. The traversal itself and the worker pool are
//! collaborator concerns.

use vstd::prelude::*;

verus! {

/// Relies on `rayon::current_num_threads`: the number of threads in the
/// current thread pool, which is never zero.
#[verifier::external_body]
fn detected_parallelism() -> (n: usize)
    ensures
        n >= 1,
{
    rayon::current_num_threads()
}

/// The policy of one parallel scan.
pub struct ParallelScanner {
    pub num_threads: usize,
    pub follow_symlinks: bool,
    pub max_depth: Option<usize>,
    pub exclude_patterns: Vec<String>,
    pub need_modified: bool,
}

impl ParallelScanner {
    /// Stores the scan policy; a requested worker count of zero becomes the
    /// detected available parallelism, so the stored count is positive
    /// whenever a positive or zero count is requested.
    pub fn new(
        num_threads: usize,
        follow_symlinks: bool,
        max_depth: Option<usize>,
        exclude_patterns: Vec<String>,
        need_modified: bool,
    ) -> (r: Self)
        ensures
            num_threads != 0 ==> r.num_threads == num_threads,
            num_threads == 0 ==> r.num_threads >= 1,
            r.follow_symlinks == follow_symlinks,
            r.max_depth == max_depth,
            r.exclude_patterns == exclude_patterns,
            r.need_modified == need_modified,
    {
        let resolved: usize = if num_threads == 0 {
            detected_parallelism()
        } else {
            num_threads
        };
        ParallelScanner {
            num_threads: resolved,
            follow_symlinks,
            max_depth,
            exclude_patterns,
            need_modified,
        }
    }
}

} // verus!
