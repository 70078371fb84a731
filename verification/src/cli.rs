//! The requests the command line can make.
use vstd::prelude::*;

verus! {

/// A parsed command line.
pub struct Cli {
    pub command: SubCommands,
}

/// The top-level requests.
pub enum SubCommands {
    /// Run a command and record it.
    Record(RecordArgs),
    /// Start a track.
    SetTrack(SetArgs),
    /// Finish the current track.
    Unset,
    /// Search the records.
    Search(SearchArgs),
}

/// The search requests.
#[allow(inconsistent_fields)]
pub enum SearchCommands {
    /// Commands: up to two numbers (file, section) and one action.
    Command { number: Vec<usize>, run: bool, del: bool, open: bool, cat: bool },
    /// Tracks: up to two numbers (file, section) and one action.
    Track { number: Vec<usize>, run: bool, del: bool, open: bool, cat: bool },
    /// A word to look for, the found record to act on, and one action.
    Query { word: String, number: Option<usize>, run: bool, del: bool, open: bool },
    /// Writeups: the writeup to show, and whether to open it instead.
    Writeup { number: Vec<usize>, open: bool },
}

/// What to record of a command, and the command.
pub struct RecordArgs {
    /// Do not record the command's output.
    pub quiet: bool,
    /// Run on a pseudo-terminal, for interactive commands.
    pub pty: bool,
    /// Title of the record.
    pub title: Option<String>,
    /// Description of the record.
    pub message: Option<String>,
    /// Comma-separated tags.
    pub tag: Option<String>,
    /// The program and its arguments.
    pub command: Vec<String>,
}

/// The track to start.
pub struct SetArgs {
    pub track_name: String,
}

/// A search request.
pub struct SearchArgs {
    pub command: SearchCommands,
}

} // verus!
