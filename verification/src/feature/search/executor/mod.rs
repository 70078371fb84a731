//! What a search request asks to be shown or done, decided from the record
//! files as they stand.
use vstd::prelude::*;

use crate::error::{OrsError, OrsErrorView};
use crate::feature::record::executor::{Executor, ExecutorView};

pub mod command;
pub mod common;
pub mod flag;
pub mod query;
pub mod writeup;

use common::{MdFile, Record, RecordView};

verus! {

/// The record files of the three collections, as found on disk.
pub struct RecordStore {
    pub commands: Vec<MdFile>,
    pub tracks: Vec<MdFile>,
    pub writeups: Vec<MdFile>,
}

/// What a search request asks for.
pub enum SearchAction {
    /// Show the table of these markdown files.
    MdTable(Vec<Record>),
    /// Show the table of these sections.
    SectionTable(Vec<Record>),
    /// Open the editor with these arguments.
    Open(Vec<String>),
    /// Print the file at this path as it is.
    CatMd(String),
    /// Show the markdown file at this path.
    ShowMd(String),
    /// Print this section as it is rendered.
    CatSection(Record),
    /// Show this section.
    ShowSection(Record),
    /// Run this command.
    Run(Executor),
    /// Delete these lines (counted from one, both included) of the file at this path.
    DeleteLines { path: String, start: usize, end: usize },
    /// Delete the writeup file at this path.
    DeleteWriteup(String),
}

/// The contents of a [`SearchAction`].
pub enum SearchActionView {
    MdTable(Seq<RecordView>),
    SectionTable(Seq<RecordView>),
    Open(Seq<Seq<char>>),
    CatMd(Seq<char>),
    ShowMd(Seq<char>),
    CatSection(RecordView),
    ShowSection(RecordView),
    Run(ExecutorView),
    DeleteLines { path: Seq<char>, start: int, end: int },
    DeleteWriteup(Seq<char>),
}

impl DeepView for SearchAction {
    type V = SearchActionView;

    open spec fn deep_view(&self) -> SearchActionView {
        match self {
            SearchAction::MdTable(v) => SearchActionView::MdTable(v.deep_view()),
            SearchAction::SectionTable(v) => SearchActionView::SectionTable(v.deep_view()),
            SearchAction::Open(a) => SearchActionView::Open(a.deep_view()),
            SearchAction::CatMd(p) => SearchActionView::CatMd(p@),
            SearchAction::ShowMd(p) => SearchActionView::ShowMd(p@),
            SearchAction::CatSection(r) => SearchActionView::CatSection(r.deep_view()),
            SearchAction::ShowSection(r) => SearchActionView::ShowSection(r.deep_view()),
            SearchAction::Run(e) => SearchActionView::Run(e.deep_view()),
            SearchAction::DeleteLines { path, start, end } => SearchActionView::DeleteLines {
                path: path@,
                start: *start as int,
                end: *end as int,
            },
            SearchAction::DeleteWriteup(p) => SearchActionView::DeleteWriteup(p@),
        }
    }
}

/// A search request, decided against the record files.
pub trait SearchExecutor {
    /// The stores on which the request does not fail outright (a number that
    /// names no file of the listing).
    spec fn spec_accepts(&self, store: &RecordStore) -> bool;

    /// What the request asks for, on such a store.
    spec fn spec_run(&self, store: &RecordStore) -> Result<SearchActionView, OrsErrorView>;

    /// Whether the request can be decided against `store`.
    fn accepts(&self, store: &RecordStore) -> (b: bool)
        ensures
            b == self.spec_accepts(store),
    ;

    /// What the request asks for.
    fn run(&self, store: &RecordStore) -> (r: Result<SearchAction, OrsError>)
        requires
            self.spec_accepts(store),
        ensures
            crate::error::result_view(r) == self.spec_run(store),
    ;
}

} // verus!
