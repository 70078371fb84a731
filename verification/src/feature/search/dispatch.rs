//! Dispatching a search request to its executor.
use vstd::prelude::*;

use crate::cli::{SearchArgs, SearchCommands};
use crate::error::{result_view, OrsError, OrsErrorView};
use crate::feature::search::executor::command::Command;
use crate::feature::search::executor::query::Query;
use crate::feature::search::executor::writeup::Writeup;
use crate::feature::search::executor::{RecordStore, SearchAction, SearchActionView, SearchExecutor};

verus! {

/// Which collections a search request reads.
pub struct Sources {
    pub commands: bool,
    pub tracks: bool,
    pub writeups: bool,
}

/// The collections a search request reads: commands, tracks or writeups for
/// their own searches, all three for a word search.
pub fn sources(args: &SearchArgs) -> (s: Sources)
    ensures
        s.commands == (args.command is Command || args.command is Query),
        s.tracks == (args.command is Track || args.command is Query),
        s.writeups == (args.command is Writeup || args.command is Query),
{
    match &args.command {
        SearchCommands::Command { .. } => Sources { commands: true, tracks: false, writeups: false },
        SearchCommands::Track { .. } => Sources { commands: false, tracks: true, writeups: false },
        SearchCommands::Query { .. } => Sources { commands: true, tracks: true, writeups: true },
        SearchCommands::Writeup { .. } => Sources { commands: false, tracks: false, writeups: true },
    }
}

/// Whether the request can be decided against `store` (its numbers name
/// files of the listings).
pub open spec fn spec_accepts(args: &SearchArgs, store: &RecordStore) -> bool {
    match args.command {
        SearchCommands::Command { number, run, del, open, cat } => (Command {
            number,
            run,
            del,
            open,
            cat,
            is_track: false,
        }).spec_accepts(store),
        SearchCommands::Track { number, run, del, open, cat } => (Command {
            number,
            run,
            del,
            open,
            cat,
            is_track: true,
        }).spec_accepts(store),
        SearchCommands::Query { word, number, run, del, open } => (Query {
            word,
            number,
            run,
            del,
            open,
        }).spec_accepts(store),
        SearchCommands::Writeup { number, open } => (Writeup { number, open }).spec_accepts(store),
    }
}

/// What the request asks for.
pub open spec fn spec_run(args: &SearchArgs, store: &RecordStore) -> Result<SearchActionView, OrsErrorView> {
    match args.command {
        SearchCommands::Command { number, run, del, open, cat } => (Command {
            number,
            run,
            del,
            open,
            cat,
            is_track: false,
        }).spec_run(store),
        SearchCommands::Track { number, run, del, open, cat } => (Command {
            number,
            run,
            del,
            open,
            cat,
            is_track: true,
        }).spec_run(store),
        SearchCommands::Query { word, number, run, del, open } => (Query {
            word,
            number,
            run,
            del,
            open,
        }).spec_run(store),
        SearchCommands::Writeup { number, open } => (Writeup { number, open }).spec_run(store),
    }
}

/// Whether the request can be decided against `store`.
pub fn accepts(args: &SearchArgs, store: &RecordStore) -> (b: bool)
    ensures
        b == spec_accepts(args, store),
{
    match &args.command {
        SearchCommands::Command { number, run, del, open, cat } => {
            let c = Command::new(number.clone(), *run, *del, *open, *cat, false);
            assert(c.number@ == number@);
            c.accepts(store)
        },
        SearchCommands::Track { number, run, del, open, cat } => {
            let c = Command::new(number.clone(), *run, *del, *open, *cat, true);
            assert(c.number@ == number@);
            c.accepts(store)
        },
        SearchCommands::Query { word, number, run, del, open } => {
            let q = Query::new(word.clone(), *number, *run, *del, *open);
            q.accepts(store)
        },
        SearchCommands::Writeup { number, open } => {
            let w = Writeup::new(number.clone(), *open);
            assert(w.number@ == number@);
            w.accepts(store)
        },
    }
}

/// What the search request `args` asks for, against the record files `store`.
pub fn run(args: SearchArgs, store: &RecordStore) -> (r: Result<SearchAction, OrsError>)
    requires
        spec_accepts(&args, store),
    ensures
        result_view(r) == spec_run(&args, store),
{
    match args.command {
        SearchCommands::Command { number, run, del, open, cat } => run_with_executor(
            Command::new(number, run, del, open, cat, false),
            store,
        ),
        SearchCommands::Track { number, run, del, open, cat } => run_with_executor(
            Command::new(number, run, del, open, cat, true),
            store,
        ),
        SearchCommands::Query { word, number, run, del, open } => run_with_executor(
            Query::new(word, number, run, del, open),
            store,
        ),
        SearchCommands::Writeup { number, open } => run_with_executor(Writeup::new(number, open), store),
    }
}

/// What `executor` asks for, against the record files `store`.
fn run_with_executor<T: SearchExecutor>(executor: T, store: &RecordStore) -> (r: Result<SearchAction, OrsError>)
    requires
        executor.spec_accepts(store),
    ensures
        result_view(r) == executor.spec_run(store),
{
    executor.run(store)
}

/// A search request is what its executor asks for: a track search is a
/// command search over the tracks, a command search one over the commands, a
/// word search and a writeup search their own executors, on the same numbers
/// and flags; each can be decided exactly where its executor can.
pub proof fn law_search_dispatch_delegates(args: &SearchArgs, store: &RecordStore)
    ensures
        match args.command {
            SearchCommands::Command { number, run, del, open, cat } => {
                let c = Command { number, run, del, open, cat, is_track: false };
                spec_run(args, store) == c.spec_run(store) && spec_accepts(args, store) == c.spec_accepts(store)
            },
            SearchCommands::Track { number, run, del, open, cat } => {
                let c = Command { number, run, del, open, cat, is_track: true };
                spec_run(args, store) == c.spec_run(store) && spec_accepts(args, store) == c.spec_accepts(store)
            },
            SearchCommands::Query { word, number, run, del, open } => {
                let q = Query { word, number, run, del, open };
                spec_run(args, store) == q.spec_run(store) && spec_accepts(args, store) == q.spec_accepts(store)
            },
            SearchCommands::Writeup { number, open } => {
                let w = Writeup { number, open };
                spec_run(args, store) == w.spec_run(store) && spec_accepts(args, store) == w.spec_accepts(store)
            },
        },
{
}

} // verus!
