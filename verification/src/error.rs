use vstd::prelude::*;

verus! {

/// The ways a request to the library can fail.
#[derive(Debug, PartialEq, Eq)]
pub enum OrsError {
    /// The records directory is not configured.
    RecordsDirNotSet,
    /// A record file could not be read.
    ReadFailed,
    /// A section number does not name a section of the listing.
    InvalidSectionIndex,
    /// The section carries no start line.
    NoStartLine,
    /// The section carries no end line.
    NoEndLine,
    /// More than two numbers were given for a command or track search.
    TooManyNumbers,
    /// More than one number was given for a writeup search.
    TooManyArguments,
    /// A line range starts at zero or ends before it starts.
    InvalidLineRange,
    /// A line range goes past the end of the file.
    RangeExceedsFileLength,
    /// The section has no command to run.
    NoCommand,
    /// The section's command has no words.
    EmptyCommand,
    /// The section's command block names no execution mode.
    NoMode,
    /// The section's command block names this mode, which is neither `batch` nor `pty`.
    InvalidMode(String),
    /// A record to be written has an empty command.
    CommandEmpty,
    /// The record template could not be rendered.
    Render,
}

/// The contents of an [`OrsError`], its strings as character sequences.
pub enum OrsErrorView {
    RecordsDirNotSet,
    ReadFailed,
    InvalidSectionIndex,
    NoStartLine,
    NoEndLine,
    TooManyNumbers,
    TooManyArguments,
    InvalidLineRange,
    RangeExceedsFileLength,
    NoCommand,
    EmptyCommand,
    NoMode,
    InvalidMode(Seq<char>),
    CommandEmpty,
    Render,
}

impl DeepView for OrsError {
    type V = OrsErrorView;

    open spec fn deep_view(&self) -> OrsErrorView {
        match self {
            OrsError::RecordsDirNotSet => OrsErrorView::RecordsDirNotSet,
            OrsError::ReadFailed => OrsErrorView::ReadFailed,
            OrsError::InvalidSectionIndex => OrsErrorView::InvalidSectionIndex,
            OrsError::NoStartLine => OrsErrorView::NoStartLine,
            OrsError::NoEndLine => OrsErrorView::NoEndLine,
            OrsError::TooManyNumbers => OrsErrorView::TooManyNumbers,
            OrsError::TooManyArguments => OrsErrorView::TooManyArguments,
            OrsError::InvalidLineRange => OrsErrorView::InvalidLineRange,
            OrsError::RangeExceedsFileLength => OrsErrorView::RangeExceedsFileLength,
            OrsError::NoCommand => OrsErrorView::NoCommand,
            OrsError::EmptyCommand => OrsErrorView::EmptyCommand,
            OrsError::NoMode => OrsErrorView::NoMode,
            OrsError::InvalidMode(m) => OrsErrorView::InvalidMode(m@),
            OrsError::CommandEmpty => OrsErrorView::CommandEmpty,
            OrsError::Render => OrsErrorView::Render,
        }
    }
}

/// The contents of a result whose error is an [`OrsError`].
pub open spec fn result_view<T: DeepView>(r: Result<T, OrsError>) -> Result<T::V, OrsErrorView> {
    match r {
        Ok(t) => Ok(t.deep_view()),
        Err(e) => Err(e.deep_view()),
    }
}

} // verus!
