//! Configuration of a walk.

use vstd::prelude::*;

verus! {

/// The maximum depth a walk descends to unless configured otherwise.
pub const DEFAULT_MAX_DEPTH: usize = 512;

/// Options that tune how the walker treats links, depth and errors.
#[derive(Clone, Debug)]
pub struct WalkOptions {
    /// Whether symbolic links to directories are followed.
    pub follow_links: bool,
    /// The deepest level an entry may have; the root is level 0.
    pub max_depth: usize,
    /// Whether I/O errors and detected loops are skipped instead of reported.
    pub ignore_errors: bool,
    /// Whether symbolic-link loop detection is on.
    pub detect_loops: bool,
}

impl Default for WalkOptions {
    /// Links are not followed, the depth is capped at 512, errors are reported
    /// and loop detection is on.
    fn default() -> (opts: Self)
        ensures
            opts.follow_links == false,
            opts.max_depth == DEFAULT_MAX_DEPTH,
            opts.ignore_errors == false,
            opts.detect_loops == true,
    {
        WalkOptions {
            follow_links: false,
            max_depth: DEFAULT_MAX_DEPTH,
            ignore_errors: false,
            detect_loops: true,
        }
    }
}

} // verus!
