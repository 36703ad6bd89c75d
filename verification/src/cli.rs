//! The command line: the commands the `magnum` program takes.
use vstd::prelude::*;

verus! {

/// The parsed command line.
#[derive(Debug, Clone, PartialEq)]
pub struct Cli {
    /// The command given, if any.
    pub command: Option<Commands>,
}

/// The commands of the command line.
#[derive(Debug, Clone, PartialEq)]
pub enum Commands {
    /// Initialize a new database cluster at `path`.
    Init { path: String },
    /// Start the database server with the configuration file `config`.
    Start { config: String },
    /// Stop the running database server.
    Stop,
    /// Open the interactive database shell.
    Shell,
    /// Create a consistent backup in `destination`.
    Backup { destination: String },
    /// Restore from the backup in `source`.
    Restore { source: String },
    /// View or validate configuration.
    Config,
    /// Display version information.
    Version,
    /// Run performance tests.
    Benchmark,
}

} // verus!
