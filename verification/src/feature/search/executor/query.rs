//! Searching all collections for a word.
use vstd::prelude::*;

use crate::error::{result_view, OrsError, OrsErrorView};
use crate::feature::search::executor::common::{
    collect_records, collect_sections, collect_writeup, content_of, find_content, listing, reindex,
    renumber, sections_of, writeup_of, MdFile, Record, RecordView,
};
use crate::feature::search::executor::flag::open::{self, editor_args};
use crate::feature::search::executor::flag::run::{self, run_plan};
use crate::feature::search::executor::{RecordStore, SearchAction, SearchActionView, SearchExecutor};
use crate::ors_type::RecordType;
use crate::text::{contains, contains_chars, lowercase, to_chars, to_lowercase};

verus! {

/// A search of every collection for a word in titles, commands and tags.
pub struct Query {
    pub word: String,
    pub number: Option<usize>,
    pub run: bool,
    pub del: bool,
    pub open: bool,
}

impl Query {
    /// A search for `word`, with the found section numbered `number`, if any,
    /// and the action the flags select.
    pub fn new(word: String, number: Option<usize>, run: bool, del: bool, open: bool) -> (q: Query)
        ensures
            q.word == word,
            q.number == number,
            q.run == run,
            q.del == del,
            q.open == open,
    {
        Query { word, number, run, del, open }
    }
}

/// The optional text holds the (lowercase) word once lowercased.
pub open spec fn field_hit(f: Option<Seq<char>>, w: Seq<char>) -> bool {
    match f {
        Some(t) => contains(lowercase(t), w),
        None => false,
    }
}

/// A found record: for commands and tracks, its title or command holds the
/// word; for any record, its message (a writeup's whole text) or one of its
/// tags does; all compared in lowercase.
pub open spec fn hits(r: RecordView, w: Seq<char>) -> bool {
    ||| ((r.record_type == RecordType::Command || r.record_type == RecordType::Track) && (field_hit(
        r.title,
        w,
    ) || field_hit(r.command, w)))
    ||| field_hit(r.message, w)
    ||| exists|i: int| 0 <= i < r.tags.len() && contains(lowercase(#[trigger] r.tags[i]), w)
}

/// The records of `s` found for `w`, in order.
pub open spec fn keep_hits(s: Seq<RecordView>, w: Seq<char>) -> Seq<RecordView>
    decreases s.len(),
{
    if s.len() == 0 {
        seq![]
    } else {
        keep_hits(s.drop_last(), w) + if hits(s.last(), w) {
            seq![s.last()]
        } else {
            seq![]
        }
    }
}

/// The searchable units of a listed file: its sections, or for a writeup the
/// writeup itself; an unread file fails.
pub open spec fn units_of(r: RecordView, files: Seq<MdFile>) -> Result<Seq<RecordView>, OrsErrorView> {
    match content_of(files, r.path) {
        None => Err(OrsErrorView::ReadFailed),
        Some(c) => if r.record_type == RecordType::Writeup {
            Ok(seq![writeup_of(r, c)])
        } else {
            Ok(sections_of(c, r.path, r.record_type))
        },
    }
}

/// The searchable units of the listed files `recs`, in order; the first
/// failure stops.
pub open spec fn gather(recs: Seq<RecordView>, files: Seq<MdFile>) -> Result<Seq<RecordView>, OrsErrorView>
    decreases recs.len(),
{
    if recs.len() == 0 {
        Ok(seq![])
    } else {
        match gather(recs.drop_last(), files) {
            Err(e) => Err(e),
            Ok(prev) => match units_of(recs.last(), files) {
                Err(e) => Err(e),
                Ok(u) => Ok(prev + u),
            },
        }
    }
}

/// The searchable units of one collection.
pub open spec fn gather_dir(files: Seq<MdFile>) -> Result<Seq<RecordView>, OrsErrorView> {
    gather(listing(files), files)
}

/// The searchable units of the commands, the tracks and the writeups, in that order.
pub open spec fn gather_store(store: &RecordStore) -> Result<Seq<RecordView>, OrsErrorView> {
    match gather_dir(store.commands@) {
        Err(e) => Err(e),
        Ok(a) => match gather_dir(store.tracks@) {
            Err(e) => Err(e),
            Ok(b) => match gather_dir(store.writeups@) {
                Err(e) => Err(e),
                Ok(c) => Ok(a + b + c),
            },
        },
    }
}

impl Query {
    /// What is asked of the found record numbered `n` among `found`.
    pub open spec fn action(&self, found: Seq<RecordView>, n: int) -> Result<SearchActionView, OrsErrorView> {
        if n >= found.len() {
            Err(OrsErrorView::InvalidSectionIndex)
        } else {
            let s = found[n];
            if self.run {
                match run_plan(s) {
                    Ok(e) => Ok(SearchActionView::Run(e)),
                    Err(e) => Err(e),
                }
            } else if self.del {
                if s.record_type == RecordType::Writeup {
                    Ok(SearchActionView::DeleteWriteup(s.path))
                } else {
                    match s.start_line {
                        None => Err(OrsErrorView::NoStartLine),
                        Some(start) => match s.end_line {
                            None => Err(OrsErrorView::NoEndLine),
                            Some(end) => Ok(SearchActionView::DeleteLines { path: s.path, start, end }),
                        },
                    }
                }
            } else if self.open {
                Ok(SearchActionView::Open(editor_args(s.path, None)))
            } else if s.record_type == RecordType::Writeup {
                Ok(SearchActionView::ShowMd(s.path))
            } else {
                Ok(SearchActionView::ShowSection(s))
            }
        }
    }
}

/// Whether the optional text holds the word once lowercased.
fn field_hit_exec(f: &Option<String>, w: &Vec<char>) -> (r: bool)
    ensures
        r == field_hit(f.deep_view(), w@),
{
    match f {
        Some(t) => {
            let l = to_lowercase(t.as_str());
            contains_chars(&to_chars(l.as_str()), w)
        },
        None => false,
    }
}

/// Whether the record is found for the word.
fn hits_exec(r: &Record, w: &Vec<char>) -> (b: bool)
    ensures
        b == hits(r.deep_view(), w@),
{
    let ghost rv = r.deep_view();
    let mut hit = false;
    match r.record_type {
        RecordType::Command | RecordType::Track => {
            hit = field_hit_exec(&r.title, w) || field_hit_exec(&r.command, w);
        },
        _ => {},
    }
    hit = hit || field_hit_exec(&r.message, w);
    let mut i: usize = 0;
    let mut tag_hit = false;
    while i < r.tags.len()
        invariant_except_break
            !tag_hit,
        invariant
            i <= r.tags.len(),
            rv == r.deep_view(),
            forall|j: int| 0 <= j < i ==> !contains(lowercase(#[trigger] rv.tags[j]), w@),
        ensures
            tag_hit ==> exists|j: int| 0 <= j < rv.tags.len() && contains(lowercase(#[trigger] rv.tags[j]), w@),
            !tag_hit ==> forall|j: int| 0 <= j < rv.tags.len() ==> !contains(lowercase(#[trigger] rv.tags[j]), w@),
        decreases r.tags.len() - i,
    {
        let l = to_lowercase(r.tags[i].as_str());
        assert(rv.tags[i as int] == r.tags@[i as int]@);
        if contains_chars(&to_chars(l.as_str()), w) {
            tag_hit = true;
            break;
        }
        i = i + 1;
    }
    hit || tag_hit
}

/// The searchable units of the listed files `recs`.
fn gather_exec(recs: &Vec<Record>, files: &Vec<MdFile>) -> (r: Result<Vec<Record>, OrsError>)
    ensures
        result_view(r) == gather(recs.deep_view(), files@),
{
    let mut out: Vec<Record> = Vec::new();
    let mut i: usize = 0;
    assert(recs.deep_view().take(0) =~= Seq::<RecordView>::empty());
    assert(out.deep_view() =~= Seq::<RecordView>::empty());
    while i < recs.len()
        invariant
            i <= recs.len(),
            gather(recs.deep_view().take(i as int), files@) == Ok::<Seq<RecordView>, OrsErrorView>(out.deep_view()),
        decreases recs.len() - i,
    {
        let rec = &recs[i];
        let ghost t = recs.deep_view().take(i + 1);
        assert(t.drop_last() =~= recs.deep_view().take(i as int));
        assert(t.last() == rec.deep_view());
        let c = match find_content(files, &rec.path) {
            Some(c) => c,
            None => {
                proof {
                    lemma_gather_err(recs.deep_view(), files@, i as int + 1);
                }
                return Err(OrsError::ReadFailed);
            },
        };
        let mut units: Vec<Record> = match rec.record_type {
            RecordType::Writeup => {
                let w = collect_writeup(rec, c.as_str());
                let mut v: Vec<Record> = Vec::new();
                v.push(w);
                assert(v.deep_view() =~= seq![w.deep_view()]);
                v
            },
            _ => collect_sections(rec, c.as_str()),
        };
        let ghost before = out.deep_view();
        let ghost ud = units.deep_view();
        out.append(&mut units);
        assert(out.deep_view() =~= before + ud);
        i = i + 1;
    }
    assert(recs.deep_view().take(recs.len() as int) =~= recs.deep_view());
    Ok(out)
}

/// A failure on the units of the first `k` listed files is the failure of all of them.
proof fn lemma_gather_err(recs: Seq<RecordView>, files: Seq<MdFile>, k: int)
    requires
        0 < k <= recs.len(),
        gather(recs.take(k), files) is Err,
    ensures
        gather(recs, files) == gather(recs.take(k), files),
    decreases recs.len(),
{
    if recs.len() > k {
        assert(recs.drop_last().take(k) =~= recs.take(k));
        lemma_gather_err(recs.drop_last(), files, k);
    } else {
        assert(recs.take(k) =~= recs);
    }
}

/// The searchable units of one collection.
fn gather_dir_exec(files: &Vec<MdFile>) -> (r: Result<Vec<Record>, OrsError>)
    ensures
        result_view(r) == gather_dir(files@),
{
    let recs = collect_records(files);
    gather_exec(&recs, files)
}

/// The records of `s` found for `w`, in order.
fn keep_hits_exec(s: &Vec<Record>, w: &Vec<char>) -> (r: Vec<Record>)
    ensures
        r.deep_view() == keep_hits(s.deep_view(), w@),
{
    let mut out: Vec<Record> = Vec::new();
    let mut i: usize = 0;
    assert(s.deep_view().take(0) =~= Seq::<RecordView>::empty());
    assert(out.deep_view() =~= Seq::<RecordView>::empty());
    while i < s.len()
        invariant
            i <= s.len(),
            out.deep_view() == keep_hits(s.deep_view().take(i as int), w@),
        decreases s.len() - i,
    {
        let ghost t = s.deep_view().take(i + 1);
        assert(t.drop_last() =~= s.deep_view().take(i as int));
        assert(t.last() == s[i as int].deep_view());
        let ghost before = out.deep_view();
        if hits_exec(&s[i], w) {
            let d = s[i].duplicate();
            out.push(d);
            assert(out.deep_view() =~= before + seq![d.deep_view()]);
        } else {
            assert(before + Seq::<RecordView>::empty() =~= before);
        }
        i = i + 1;
    }
    assert(s.deep_view().take(s.len() as int) =~= s.deep_view());
    out
}

impl SearchExecutor for Query {
    open spec fn spec_accepts(&self, store: &RecordStore) -> bool {
        true
    }

    open spec fn spec_run(&self, store: &RecordStore) -> Result<SearchActionView, OrsErrorView> {
        match gather_store(store) {
            Err(e) => Err(e),
            Ok(units) => {
                let found = reindex(keep_hits(units, lowercase(self.word@)));
                match self.number {
                    None => Ok(SearchActionView::SectionTable(found)),
                    Some(n) => self.action(found, n as int),
                }
            },
        }
    }

    fn accepts(&self, store: &RecordStore) -> (b: bool) {
        true
    }

    fn run(&self, store: &RecordStore) -> (r: Result<SearchAction, OrsError>) {
        let word = to_lowercase(self.word.as_str());
        let w = to_chars(word.as_str());
        let mut units = match gather_dir_exec(&store.commands) {
            Ok(u) => u,
            Err(e) => {
                return Err(e);
            },
        };
        let mut tracks = match gather_dir_exec(&store.tracks) {
            Ok(u) => u,
            Err(e) => {
                return Err(e);
            },
        };
        let mut writeups = match gather_dir_exec(&store.writeups) {
            Ok(u) => u,
            Err(e) => {
                return Err(e);
            },
        };
        let ghost a = units.deep_view();
        let ghost b = tracks.deep_view();
        let ghost c = writeups.deep_view();
        units.append(&mut tracks);
        units.append(&mut writeups);
        assert(units.deep_view() =~= a + b + c);
        let mut found = keep_hits_exec(&units, &w);
        renumber(&mut found);
        match self.number {
            None => Ok(SearchAction::SectionTable(found)),
            Some(n) => {
                if n >= found.len() {
                    return Err(OrsError::InvalidSectionIndex);
                }
                let section = &found[n];
                assert(found.deep_view()[n as int] == section.deep_view());
                if self.run {
                    match run::exe(section) {
                        Ok(e) => Ok(SearchAction::Run(e)),
                        Err(e) => Err(e),
                    }
                } else if self.del {
                    match section.record_type {
                        RecordType::Writeup => Ok(SearchAction::DeleteWriteup(section.path.clone())),
                        _ => {
                            let start = match section.start_line {
                                Some(s) => s,
                                None => {
                                    return Err(OrsError::NoStartLine);
                                },
                            };
                            let end = match section.end_line {
                                Some(e) => e,
                                None => {
                                    return Err(OrsError::NoEndLine);
                                },
                            };
                            Ok(SearchAction::DeleteLines { path: section.path.clone(), start, end })
                        },
                    }
                } else if self.open {
                    Ok(SearchAction::Open(open::exe(&section.path)))
                } else {
                    match section.record_type {
                        RecordType::Writeup => Ok(SearchAction::ShowMd(section.path.clone())),
                        _ => Ok(SearchAction::ShowSection(section.duplicate())),
                    }
                }
            },
        }
    }
}


/// A word search finds exactly the hits: every found record holds the word
/// (in lowercase) in its title or command (commands and tracks), in its
/// message (a writeup's whole text) or in a tag,
/// and every such record is found, in the order the collections give.
pub proof fn law_found_are_hits(s: Seq<RecordView>, w: Seq<char>)
    ensures
        forall|i: int| 0 <= i < keep_hits(s, w).len() ==> hits(#[trigger] keep_hits(s, w)[i], w),
        forall|i: int| 0 <= i < s.len() && hits(#[trigger] s[i], w) ==> keep_hits(s, w).contains(s[i]),
        forall|i: int| 0 <= i < keep_hits(s, w).len() ==> s.contains(#[trigger] keep_hits(s, w)[i]),
    decreases s.len(),
{
    if s.len() > 0 {
        let dl = s.drop_last();
        law_found_are_hits(dl, w);
        let k = keep_hits(s, w);
        let kd = keep_hits(dl, w);
        assert forall|i: int| 0 <= i < k.len() implies hits(#[trigger] k[i], w) && s.contains(k[i]) by {
            if i < kd.len() {
                assert(k[i] == kd[i]);
                let j = choose|j: int| 0 <= j < dl.len() && dl[j] == kd[i];
                assert(s[j] == dl[j]);
            } else {
                assert(k[i] == s.last());
                assert(s[s.len() - 1] == s.last());
            }
        }
        assert forall|i: int| 0 <= i < s.len() && hits(#[trigger] s[i], w) implies k.contains(s[i]) by {
            if i < s.len() - 1 {
                assert(s[i] == dl[i]);
                let j = choose|j: int| 0 <= j < kd.len() && kd[j] == dl[i];
                assert(k[j] == kd[j]);
            } else {
                assert(k[k.len() - 1] == s.last());
            }
        }
    }
}

/// A word search does not depend on the case of the word: two searches whose
/// words have the same lowercase form, with the same number and flags, ask
/// for the same thing of the same record files.
pub proof fn law_query_ignores_case(q1: Query, q2: Query, store: &RecordStore)
    requires
        lowercase(q1.word@) == lowercase(q2.word@),
        q1.number == q2.number,
        q1.run == q2.run,
        q1.del == q2.del,
        q1.open == q2.open,
    ensures
        q1.spec_run(store) == q2.spec_run(store),
{
}

/// What a word search matches: a record is found exactly when the word (in
/// lowercase) is in the lowercased title or command of a command or track
/// section, or in the lowercased message (a writeup's whole text) or a tag
/// of any record; and every such record of the searched units is among those
/// found.
pub proof fn law_search_matches_fields(units: Seq<RecordView>, w: Seq<char>, i: int)
    requires
        0 <= i < units.len(),
    ensures
        hits(units[i], w) <==> {
            let r = units[i];
            ||| (r.record_type == RecordType::Command || r.record_type == RecordType::Track) && (r.title matches Some(
                t,
            ) && contains(lowercase(t), w))
            ||| (r.record_type == RecordType::Command || r.record_type == RecordType::Track) && (r.command matches Some(
                c,
            ) && contains(lowercase(c), w))
            ||| r.message matches Some(m) && contains(lowercase(m), w)
            ||| exists|k: int| 0 <= k < r.tags.len() && contains(lowercase(#[trigger] r.tags[k]), w)
        },
        (units[i].record_type == RecordType::Track && (units[i].title matches Some(t) && contains(lowercase(t), w)))
            ==> keep_hits(units, w).contains(units[i]),
        (units[i].record_type == RecordType::Command && (units[i].title matches Some(t) && contains(lowercase(t), w)))
            ==> keep_hits(units, w).contains(units[i]),
        (units[i].message matches Some(m) && contains(lowercase(m), w)) ==> keep_hits(units, w).contains(units[i]),
{
    law_found_are_hits(units, w);
}

} // verus!
