//! Running the command a section records.
use vstd::prelude::*;

use crate::error::{result_view, OrsError, OrsErrorView};
use crate::feature::record::executor::batch::Batch;
use crate::feature::record::executor::pty::Pty;
use crate::feature::record::executor::{Executor, ExecutorView};
use crate::feature::search::executor::common::{Record, RecordView};
use crate::text::{chars_eq, chars_views, from_chars, split_words, to_chars, words};

verus! {

/// What running a section asks for: its command split into words, the first
/// the program, run in the mode its command block names.
pub open spec fn run_plan(r: RecordView) -> Result<ExecutorView, OrsErrorView> {
    match r.command {
        None => Err(OrsErrorView::NoCommand),
        Some(c) => {
            let parts = words(c);
            if parts.len() == 0 {
                Err(OrsErrorView::EmptyCommand)
            } else {
                match r.mode {
                    None => Err(OrsErrorView::NoMode),
                    Some(m) => if m == "batch"@ {
                        Ok(ExecutorView { pty: false, command: parts[0], args: parts.skip(1) })
                    } else if m == "pty"@ {
                        Ok(ExecutorView { pty: true, command: parts[0], args: parts.skip(1) })
                    } else {
                        Err(OrsErrorView::InvalidMode(m))
                    },
                }
            }
        },
    }
}

/// The run a section asks for.
pub fn exe(section: &Record) -> (r: Result<Executor, OrsError>)
    ensures
        result_view(r) == run_plan(section.deep_view()),
{
    let cmd = match &section.command {
        Some(c) => c,
        None => {
            return Err(OrsError::NoCommand);
        },
    };
    let cs = to_chars(cmd.as_str());
    let parts = split_words(&cs);
    let ghost pv = chars_views(parts@);
    if parts.len() == 0 {
        return Err(OrsError::EmptyCommand);
    }
    let mut args: Vec<String> = Vec::new();
    let mut i: usize = 1;
    while i < parts.len()
        invariant
            pv == chars_views(parts@),
            1 <= i <= parts.len(),
            args.deep_view() =~= pv.subrange(1, i as int),
        decreases parts.len() - i,
    {
        let ghost before = args.deep_view();
        assert(pv[i as int] == parts@[i as int]@);
        let a = from_chars(&parts[i]);
        args.push(a);
        assert(args.deep_view() =~= before.push(a@));
        i = i + 1;
    }
    assert(pv.subrange(1, parts.len() as int) =~= pv.skip(1));
    assert(pv[0] == parts@[0]@);
    let program = from_chars(&parts[0]);
    let mode = match &section.mode {
        Some(m) => m,
        None => {
            return Err(OrsError::NoMode);
        },
    };
    let mc = to_chars(mode.as_str());
    let batch = to_chars("batch");
    let pty = to_chars("pty");
    if chars_eq(&mc, &batch) {
        Ok(Executor::Batch(Batch::new(program.as_str(), args)))
    } else if chars_eq(&mc, &pty) {
        Ok(Executor::Pty(Pty::new(program.as_str(), args)))
    } else {
        Err(OrsError::InvalidMode(mode.clone()))
    }
}

} // verus!
