//! How a recorded command is run, and what of its run is kept.
use vstd::prelude::*;

use crate::feature::search::table::{display_width, str_width};
use crate::text::{extend, from_chars, to_chars, trim, trim_chars};

pub mod batch;
pub mod pty;

use batch::Batch;
use pty::Pty;

verus! {

/// A command to run, in one of the two execution modes.
pub enum Executor {
    Batch(Batch),
    Pty(Pty),
}

/// The contents of an [`Executor`].
pub struct ExecutorView {
    pub pty: bool,
    pub command: Seq<char>,
    pub args: Seq<Seq<char>>,
}

impl DeepView for Executor {
    type V = ExecutorView;

    open spec fn deep_view(&self) -> ExecutorView {
        match self {
            Executor::Batch(b) => ExecutorView { pty: false, command: b.command@, args: b.args.deep_view() },
            Executor::Pty(p) => ExecutorView { pty: true, command: p.command@, args: p.args.deep_view() },
        }
    }
}

impl Executor {
    /// The mode name recorded for this executor.
    pub open spec fn spec_mode(&self) -> Seq<char> {
        match self {
            Executor::Batch(_) => "batch"@,
            Executor::Pty(_) => "pty"@,
        }
    }

    /// The mode name recorded for this executor: `batch` or `pty`.
    pub fn mode(&self) -> (m: &'static str)
        ensures
            m@ == self.spec_mode(),
    {
        match self {
            Executor::Batch(b) => b.mode(),
            Executor::Pty(p) => p.mode(),
        }
    }
}

/// What a run printed on its standard output.
pub struct ExecResult {
    pub stdout: Vec<u8>,
}

/// The track a track file names: its trimmed text, none when blank.
pub open spec fn track_name_of(content: Option<Seq<char>>) -> Option<Seq<char>> {
    match content {
        Some(s) => if trim(s).len() == 0 {
            None
        } else {
            Some(trim(s))
        },
        None => None,
    }
}

/// The current track, given the text of the track file (none when the file
/// could not be read).
pub fn get_track_name(content: Option<&str>) -> (r: Option<String>)
    ensures
        r.deep_view() == track_name_of(match content {
            Some(s) => Some(s@),
            None => None,
        }),
{
    match content {
        Some(s) => {
            let t = trim_chars(&to_chars(s));
            if t.len() == 0 {
                None
            } else {
                Some(from_chars(&t))
            }
        },
        None => None,
    }
}


/// How a track banner is printed.
pub enum Banner {
    /// The label alone, when it is as wide as the terminal or wider.
    Plain(String),
    /// The label followed by this many dashes, between empty lines.
    Ruled { label: String, dashes: usize },
}

/// The contents of a [`Banner`].
pub enum BannerView {
    Plain(Seq<char>),
    Ruled { label: Seq<char>, dashes: int },
}

impl DeepView for Banner {
    type V = BannerView;

    open spec fn deep_view(&self) -> BannerView {
        match self {
            Banner::Plain(l) => BannerView::Plain(l@),
            Banner::Ruled { label, dashes } => BannerView::Ruled { label: label@, dashes: *dashes as int },
        }
    }
}

/// The label of a track banner: `--- [ ACTION: NAME.md ] `.
pub open spec fn banner_label(action: Seq<char>, name: Seq<char>) -> Seq<char> {
    "--- [ "@ + action + ": "@ + name + ".md ] "@
}

/// The banner for `action` on the track `name` in a terminal `term_width`
/// columns wide: the label ruled out to the terminal's width with dashes,
/// or the label alone when it fills the width.
pub open spec fn spec_track_banner(action: Seq<char>, name: Seq<char>, term_width: int) -> BannerView {
    let l = banner_label(action, name);
    if display_width(l) >= term_width {
        BannerView::Plain(l)
    } else {
        BannerView::Ruled { label: l, dashes: term_width - display_width(l) }
    }
}

/// The banner for `action` on the track `name`.
pub fn track_banner(action: &str, name: &str, term_width: usize) -> (b: Banner)
    ensures
        b.deep_view() == spec_track_banner(action@, name@, term_width as int),
{
    let mut v = to_chars("--- [ ");
    extend(&mut v, &to_chars(action));
    extend(&mut v, &to_chars(": "));
    extend(&mut v, &to_chars(name));
    extend(&mut v, &to_chars(".md ] "));
    let label = from_chars(&v);
    let w = str_width(label.as_str());
    if w >= term_width {
        Banner::Plain(label)
    } else {
        Banner::Ruled { label, dashes: term_width - w }
    }
}


/// The track a track file names is what was written to it: a name without
/// surrounding whitespace is read back as it was set; a blank file names none.
pub proof fn law_track_name_read_back(name: Seq<char>)
    ensures
        trim(name) == name && name.len() > 0 ==> track_name_of(Some(name)) == Some(name),
        trim(name).len() == 0 ==> track_name_of(Some(name)) is None,
{
}

} // verus!
