//! The settings of a run.
use vstd::prelude::*;

verus! {

/// What a run is asked to do.
#[derive(Debug, Clone)]
pub struct Options {
    /// The build file, relative to the working directory unless absolute.
    pub file: String,
    /// The working directory; the current one when absent.
    pub directory: Option<String>,
    pub jobs: usize,
    pub dry_run: bool,
    pub verbose: bool,
    pub quiet: bool,
    pub keep_going: bool,
    pub clean: bool,
    pub list_targets: bool,
    pub explain: bool,
    pub compdb: bool,
    pub always_make: bool,
    /// Colour forced on or off; chosen from the terminal when absent.
    pub color: Option<bool>,
    pub targets: Vec<String>,
}

impl Options {
    /// The default settings, running up to `jobs` jobs at once: read
    /// `build.mold` in the current directory and build its default targets.
    pub fn with_jobs(jobs: usize) -> (r: Self)
        ensures
            r.file@ == "build.mold"@,
            r.directory is None,
            r.jobs == jobs,
            !r.dry_run && !r.verbose && !r.quiet && !r.keep_going,
            !r.clean && !r.list_targets && !r.explain && !r.compdb && !r.always_make,
            r.color is None,
            r.targets@.len() == 0,
    {
        Options {
            file: "build.mold".to_owned(),
            directory: None,
            jobs,
            dry_run: false,
            verbose: false,
            quiet: false,
            keep_going: false,
            clean: false,
            list_targets: false,
            explain: false,
            compdb: false,
            always_make: false,
            color: None,
            targets: Vec::new(),
        }
    }
}

} // verus!
