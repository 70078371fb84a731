use vstd::prelude::*;

verus! {

/// A command run with its output piped and echoed.
pub struct Batch {
    pub command: String,
    pub args: Vec<String>,
}

impl Batch {
    /// A batch run of `command` with `args`.
    pub fn new(command: &str, args: Vec<String>) -> (b: Batch)
        ensures
            b.command@ == command@,
            b.args == args,
    {
        Batch { command: command.to_owned(), args }
    }

    /// The mode name recorded for batch runs.
    pub fn mode(&self) -> (m: &'static str)
        ensures
            m@ == "batch"@,
    {
        "batch"
    }
}

} // verus!
