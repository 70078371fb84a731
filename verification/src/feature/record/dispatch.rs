//! Recording a command: how it is run, and the entry written for it.
use vstd::prelude::*;

use crate::cli::RecordArgs;
use crate::feature::record::executor::batch::Batch;
use crate::feature::record::executor::pty::Pty;
use crate::feature::record::executor::{Executor, ExecutorView};
use crate::feature::record::md::Md;
use crate::text::{lossy_string, utf8_lossy};

verus! {

/// How a command is recorded: the run to make. Every record runs its
/// command; a quiet one keeps none of its output.
pub struct RecordPlan {
    pub executor: Executor,
}

/// How the command of `args` is recorded: on a pseudo-terminal when asked,
/// else as a batch run, the first word being the program.
pub fn run(args: &RecordArgs) -> (p: RecordPlan)
    requires
        args.command.len() >= 1,
    ensures
        p.executor.deep_view() == (ExecutorView {
            pty: args.pty,
            command: args.command@[0]@,
            args: args.command.deep_view().skip(1),
        }),
{
    let command = args.command[0].as_str();
    let mut rest: Vec<String> = Vec::new();
    let mut i: usize = 1;
    while i < args.command.len()
        invariant
            1 <= i <= args.command.len(),
            rest.deep_view() =~= args.command.deep_view().subrange(1, i as int),
        decreases args.command.len() - i,
    {
        let ghost before = rest.deep_view();
        let s = args.command[i].clone();
        rest.push(s);
        assert(rest.deep_view() =~= before.push(s@));
        i = i + 1;
    }
    assert(args.command.deep_view().subrange(1, args.command.len() as int) =~= args.command.deep_view().skip(1));
    let executor = if args.pty {
        Executor::Pty(Pty::new(command, rest))
    } else {
        Executor::Batch(Batch::new(command, rest))
    };
    RecordPlan { executor }
}

/// The entry recorded for the command of `args` run by `executor`: what it
/// printed (`output`, read leniently as UTF-8) unless the record is quiet,
/// under the current track `track_name`, if any.
pub fn run_with_executor(executor: &Executor, args: RecordArgs, output: Option<Vec<u8>>, track_name: Option<String>) -> (md: Md)
    ensures
        md.title == args.title,
        md.message == args.message,
        md.command == args.command,
        md.mode@ == executor.spec_mode(),
        md.result.deep_view() == (if args.quiet {
            None
        } else {
            match output {
                Some(b) => Some(utf8_lossy(b@)),
                None => None,
            }
        }),
        md.tag == args.tag,
        md.track_name == track_name,
{
    let result = if args.quiet {
        None
    } else {
        match &output {
            Some(b) => Some(lossy_string(b.as_slice())),
            None => None,
        }
    };
    Md::new(
        args.title,
        args.message,
        args.command,
        executor.mode().to_owned(),
        result,
        args.tag,
        track_name,
    )
}

} // verus!
