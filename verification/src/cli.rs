//! The command line's options, as plain values.

use std::path::PathBuf;
use vstd::prelude::*;

verus! {

/// `std::path::PathBuf`, which the library only carries along.
#[verifier::external_type_specification]
#[verifier::external_body]
pub struct ExPathBuf(PathBuf);

/// The log level that `--verbose` stands for.
pub open spec fn verbose_level() -> Seq<char> {
    seq!['d', 'e', 'b', 'u', 'g']
}

/// The options of one run.
#[derive(Debug)]
pub struct Cli {
    /// Directory containing XML files to process.
    pub input_dir: PathBuf,
    /// Output JSON file path.
    pub output: Option<String>,
    /// Configuration file path.
    pub config: String,
    /// Number of parallel threads (0 = auto-detect).
    pub threads: Option<usize>,
    /// Maximum directory traversal depth (0 = unlimited).
    pub max_depth: Option<usize>,
    /// Log level (trace, debug, info, warn, error).
    pub log_level: String,
    /// Disable progress bar.
    pub no_progress: bool,
    /// Disable pretty-print JSON output.
    pub no_pretty: bool,
    /// Verbose output (equivalent to log level debug).
    pub verbose: bool,
}

impl Cli {
    /// The log level in effect: `debug` where verbose output was asked for,
    /// else the level that was given.
    pub fn effective_log_level(&self) -> (level: String)
        ensures
            level@ == if self.verbose {
                verbose_level()
            } else {
                self.log_level@
            },
    {
        if self.verbose {
            proof {
                reveal_strlit("debug");
                assert("debug"@ =~= verbose_level());
            }
            "debug".to_string()
        } else {
            self.log_level.clone()
        }
    }
}

} // verus!
