//! Opening a record file in the editor.
use vstd::prelude::*;

use crate::text::{decimal, decimal_chars, from_chars};

verus! {

/// The editor's arguments for a file, at a line (counted from zero) when one
/// is given: `+N` with the line counted from one, then the path.
pub open spec fn editor_args(path: Seq<char>, line: Option<usize>) -> Seq<Seq<char>> {
    match line {
        Some(n) => seq![seq!['+'] + decimal((n + 1) as nat), path],
        None => seq![path],
    }
}

/// The editor's arguments for opening the file at `path`.
pub fn exe(path: &String) -> (r: Vec<String>)
    ensures
        r.deep_view() == editor_args(path@, None),
{
    exe_at_line(path, None)
}

/// The editor's arguments for opening the file at `path` at `line`, counted
/// from zero.
pub fn exe_at_line(path: &String, line: Option<usize>) -> (r: Vec<String>)
    requires
        line matches Some(n) ==> n < usize::MAX,
    ensures
        r.deep_view() == editor_args(path@, line),
{
    let mut args: Vec<String> = Vec::new();
    match line {
        Some(n) => {
            let mut jump: Vec<char> = Vec::new();
            jump.push('+');
            let d = decimal_chars(n + 1);
            crate::text::extend(&mut jump, &d);
            args.push(from_chars(&jump));
        },
        None => {},
    }
    args.push(path.clone());
    assert(args.deep_view() =~= editor_args(path@, line));
    args
}

} // verus!
