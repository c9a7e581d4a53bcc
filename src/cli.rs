use std::path::PathBuf;
use vstd::prelude::*;

verus! {

/// The parsed command line: an optional store path and a command.
pub struct Cli {
    /// Store path; the platform's local data directory when absent.
    pub database: Option<PathBuf>,
    pub command: Commands,
}

/// The commands of the command line.
pub enum Commands {
    /// Set the store up with a master password.
    Init,
    /// Watch the clipboard, keeping at most `max_entries` entries.
    Start { max_entries: Option<usize> },
    /// List the stored entries.
    List { verbose: bool, limit: Option<usize> },
    /// Decrypt and print one entry.
    Show { id: String },
    /// Put one entry back on the clipboard.
    Copy { id: String },
    /// Delete one entry.
    Delete { id: String, yes: bool },
    /// Delete every entry.
    Clear { yes: bool },
    /// Print statistics of the store.
    Stats,
}

} // verus!
