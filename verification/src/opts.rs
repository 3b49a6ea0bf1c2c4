//! Run configuration: the paths to work on and the flags that control
//! recursion, prompting, and simulation.

use vstd::prelude::*;

verus! {

/// Program flags.
#[derive(PartialEq, Eq, Structural, Clone, Copy, Debug)]
pub struct Flags {
    /// Recursively rename filenames inside directories.
    pub recursive: bool,
    /// Do not interactively prompt to rename each file.
    pub force: bool,
    /// Do not actually rename files; only report the renames that would
    /// happen, simulated against an in-memory snapshot.
    pub dry_run: bool,
}

impl Flags {
    /// Whether the run asks before descending or renaming: neither forced nor
    /// simulated.
    pub open spec fn spec_should_prompt(&self) -> bool {
        !self.force && !self.dry_run
    }

    /// Whether the run asks before descending or renaming.
    pub fn should_prompt(&self) -> (r: bool)
        ensures
            r == self.spec_should_prompt(),
    {
        !self.force && !self.dry_run
    }
}

/// A parsed command line: the paths whose filenames to unixize, and the
/// program flags.
#[derive(Debug)]
pub struct Opts {
    /// The paths of filenames to unixize.
    pub paths: Vec<String>,
    /// Program flags.
    pub flags: Flags,
}

} // verus!
