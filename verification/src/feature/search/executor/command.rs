//! Searching commands and tracks: listings of files, of the sections of one
//! file, and the actions on one section.
use vstd::prelude::*;

use crate::error::{OrsError, OrsErrorView};
use crate::feature::search::executor::common::{
    collect_records, collect_sections, content_of, find_content, is_section_header, lemma_sections_placed, listing,
    no_fields, section_body, sections_from, sections_of, MdFile, RecordView,
};
use crate::feature::search::executor::flag::open::{self, editor_args};
use crate::feature::search::executor::flag::run::{self, run_plan};
use crate::feature::search::executor::{RecordStore, SearchAction, SearchActionView, SearchExecutor};
use crate::ors_type::RecordType;
use crate::text::lines;

verus! {

/// A command or track search: the listing, the sections of one file, or an
/// action on one section.
pub struct Command {
    pub number: Vec<usize>,
    pub run: bool,
    pub del: bool,
    pub open: bool,
    pub cat: bool,
    pub is_track: bool,
}

impl Command {
    /// A search of the tracks (or the commands) for the file and section
    /// numbered in `number`, with the action the flags select.
    pub fn new(number: Vec<usize>, run: bool, del: bool, open: bool, cat: bool, is_track: bool) -> (c: Command)
        ensures
            c.number == number,
            c.run == run,
            c.del == del,
            c.open == open,
            c.cat == cat,
            c.is_track == is_track,
    {
        Command { number, run, del, open, cat, is_track }
    }

    /// The files searched.
    pub open spec fn files(&self, store: &RecordStore) -> Seq<MdFile> {
        if self.is_track {
            store.tracks@
        } else {
            store.commands@
        }
    }

    /// What is asked of one section of the file `md`, numbered `section` among `secs`.
    pub open spec fn section_action(
        &self,
        md: RecordView,
        secs: Seq<RecordView>,
        section: int,
    ) -> Result<SearchActionView, OrsErrorView> {
        if section >= secs.len() {
            Err(OrsErrorView::InvalidSectionIndex)
        } else {
            let s = secs[section];
            if self.run {
                match run_plan(s) {
                    Ok(e) => Ok(SearchActionView::Run(e)),
                    Err(e) => Err(e),
                }
            } else if self.del {
                match s.start_line {
                    None => Err(OrsErrorView::NoStartLine),
                    Some(start) => match s.end_line {
                        None => Err(OrsErrorView::NoEndLine),
                        Some(end) => Ok(SearchActionView::DeleteLines { path: md.path, start, end }),
                    },
                }
            } else if self.open {
                Ok(SearchActionView::Open(editor_args(md.path, match s.start_line {
                    Some(n) => Some(n as usize),
                    None => None,
                })))
            } else if self.cat {
                Ok(SearchActionView::CatSection(s))
            } else {
                Ok(SearchActionView::ShowSection(s))
            }
        }
    }
}

impl SearchExecutor for Command {
    open spec fn spec_accepts(&self, store: &RecordStore) -> bool {
        (self.number@.len() == 1 || self.number@.len() == 2) ==> self.number@[0] < listing(self.files(store)).len()
    }

    open spec fn spec_run(&self, store: &RecordStore) -> Result<SearchActionView, OrsErrorView> {
        let recs = listing(self.files(store));
        if self.number@.len() == 0 {
            Ok(SearchActionView::MdTable(recs))
        } else if self.number@.len() <= 2 {
            let md = recs[self.number@[0] as int];
            match content_of(self.files(store), md.path) {
                None => Err(OrsErrorView::ReadFailed),
                Some(c) => {
                    let secs = sections_of(c, md.path, md.record_type);
                    if self.number@.len() == 1 {
                        if self.open {
                            Ok(SearchActionView::Open(editor_args(md.path, None)))
                        } else if self.cat {
                            Ok(SearchActionView::CatMd(md.path))
                        } else {
                            Ok(SearchActionView::SectionTable(secs))
                        }
                    } else {
                        self.section_action(md, secs, self.number@[1] as int)
                    }
                },
            }
        } else {
            Err(OrsErrorView::TooManyNumbers)
        }
    }

    fn accepts(&self, store: &RecordStore) -> (b: bool) {
        if self.number.len() == 1 || self.number.len() == 2 {
            let files = if self.is_track {
                &store.tracks
            } else {
                &store.commands
            };
            let records = collect_records(files);
            self.number[0] < records.len()
        } else {
            true
        }
    }

    fn run(&self, store: &RecordStore) -> (r: Result<SearchAction, OrsError>) {
        let files = if self.is_track {
            &store.tracks
        } else {
            &store.commands
        };
        assert(files@ == self.files(store));
        let n = self.number.len();
        if n == 0 {
            let records = collect_records(files);
            return Ok(SearchAction::MdTable(records));
        }
        if n > 2 {
            return Err(OrsError::TooManyNumbers);
        }
        let records = collect_records(files);
        let md_index = self.number[0];
        let md = &records[md_index];
        assert(records.deep_view()[md_index as int] == md.deep_view());
        let content = match find_content(files, &md.path) {
            Some(c) => c,
            None => {
                return Err(OrsError::ReadFailed);
            },
        };
        let sections = collect_sections(md, content.as_str());
        if n == 1 {
            if self.open {
                Ok(SearchAction::Open(open::exe(&md.path)))
            } else if self.cat {
                Ok(SearchAction::CatMd(md.path.clone()))
            } else {
                Ok(SearchAction::SectionTable(sections))
            }
        } else {
            let section_index = self.number[1];
            if section_index >= sections.len() {
                return Err(OrsError::InvalidSectionIndex);
            }
            let section = &sections[section_index];
            assert(sections.deep_view()[section_index as int] == section.deep_view());
            if self.run {
                match run::exe(section) {
                    Ok(e) => Ok(SearchAction::Run(e)),
                    Err(e) => Err(e),
                }
            } else if self.del {
                let start = match section.start_line {
                    Some(s) => s,
                    None => {
                        return Err(OrsError::NoStartLine);
                    },
                };
                let end = match section.end_line {
                    Some(e) => e,
                    None => {
                        return Err(OrsError::NoEndLine);
                    },
                };
                Ok(SearchAction::DeleteLines { path: md.path.clone(), start, end })
            } else if self.open {
                proof {
                    lemma_sections_placed(lines(content@), 0, 0, md.path@, md.record_type);
                    assert(sections.deep_view()[section_index as int] == sections_of(content@, md.path@, md.record_type)[section_index as int]);
                }
                Ok(SearchAction::Open(open::exe_at_line(&md.path, section.start_line)))
            } else if self.cat {
                Ok(SearchAction::CatSection(section.duplicate()))
            } else {
                Ok(SearchAction::ShowSection(section.duplicate()))
            }
        }
    }
}

/// A command or track search for file `n` and section `m` acts on the section
/// numbered `m` of the file the listing numbers `n`, read from that file's
/// text: it shows it, prints it as it is, deletes its lines or opens the
/// editor at its header, as the flags ask.
pub proof fn law_section_numbered(c: Command, store: &RecordStore, text: Seq<char>)
    requires
        c.number@.len() == 2,
        c.number@[0] < listing(c.files(store)).len(),
        content_of(c.files(store), listing(c.files(store))[c.number@[0] as int].path) == Some(text),
        c.number@[1] < sections_of(
            text,
            listing(c.files(store))[c.number@[0] as int].path,
            listing(c.files(store))[c.number@[0] as int].record_type,
        ).len(),
        !c.run,
    ensures
        ({
            let md = listing(c.files(store))[c.number@[0] as int];
            let m = c.number@[1] as int;
            let sec = sections_of(text, md.path, md.record_type)[m];
            &&& md.index == c.number@[0]
            &&& sec.index == m
            &&& sec.path == md.path
            &&& sec.start_line matches Some(s) && sec.end_line matches Some(e) && 0 <= s < e
            &&& (!c.del && !c.open && c.cat) ==> c.spec_run(store) == Ok::<SearchActionView, OrsErrorView>(
                SearchActionView::CatSection(sec),
            )
            &&& (!c.del && !c.open && !c.cat) ==> c.spec_run(store) == Ok::<SearchActionView, OrsErrorView>(
                SearchActionView::ShowSection(sec),
            )
            &&& c.del ==> c.spec_run(store) == Ok::<SearchActionView, OrsErrorView>(
                SearchActionView::DeleteLines { path: md.path, start: sec.start_line->Some_0, end: sec.end_line->Some_0 },
            )
        }),
{
    crate::feature::search::executor::common::law_listing_sorted_and_complete(c.files(store));
    let md = listing(c.files(store))[c.number@[0] as int];
    lemma_sections_placed(lines(text), 0, 0, md.path, md.record_type);
    let secs = sections_of(text, md.path, md.record_type);
    let m = c.number@[1] as int;
    assert(secs[m].start_line is Some);
    assert forall|k: int| 0 <= k < secs.len() implies (#[trigger] secs[k]).path == md.path by {
        lemma_sections_path(lines(text), 0, 0, md.path, md.record_type, k);
    }
}

/// Every section read from a file carries the file's path.
proof fn lemma_sections_path(ls: Seq<Seq<char>>, p: int, index: int, path: Seq<char>, rt: RecordType, k: int)
    requires
        0 <= p <= ls.len(),
        0 <= k < sections_from(ls, p, index, path, rt).len(),
    ensures
        sections_from(ls, p, index, path, rt)[k].path == path,
    decreases ls.len() - p,
{
    if p < ls.len() {
        if is_section_header(ls[p]) {
            crate::feature::search::executor::common::lemma_section_body_pos(ls, p + 1, no_fields());
            let (f, e) = section_body(ls, p + 1, no_fields());
            if k > 0 {
                lemma_sections_path(ls, e, index + 1, path, rt, k - 1);
            }
        } else {
            lemma_sections_path(ls, p + 1, index, path, rt, k);
        }
    }
}

} // verus!
