//! Record files: what a listing of markdown files and the sections in one of
//! them are, read from the files' text.
use vstd::prelude::*;

use crate::ors_type::{RecordType, UnitType};
use crate::error::{result_view, OrsError, OrsErrorView};
use crate::feature::record::md::{join_strings, join_words, or_none, record_text, render_record, str_opt, RECORD_TEMPLATE};
use crate::paths::{join, join_path, lemma_components_less_total, lemma_path_less_asymmetric, lemma_path_not_less_transitive, components, extension, file_stem, path_components, path_less, path_stem, is_md_path, components_less_exec};
use crate::text::{
    chars_eq, chars_views, extend, replace, replace_chars, from_chars, lines, split_char, split_lines, split_on, split_words,
    starts_with, starts_with_chars, to_chars, trim, trim_chars, trim_start, trim_start_chars,
    trim_start_matches, trim_start_matches_chars, unlines, words, split_from, trim_end, is_ws,
};

verus! {

/// One line of a listing: a markdown file, or one section of one.
pub struct Record {
    pub index: usize,
    pub start_line: Option<usize>,
    pub end_line: Option<usize>,
    pub path: String,
    pub unit_type: UnitType,
    pub record_type: RecordType,
    pub count: Option<usize>,
    pub title: Option<String>,
    pub message: Option<String>,
    pub command: Option<String>,
    pub mode: Option<String>,
    pub result: Option<String>,
    pub tags: Vec<String>,
}

/// The contents of a [`Record`], its strings as character sequences.
pub struct RecordView {
    pub index: int,
    pub start_line: Option<int>,
    pub end_line: Option<int>,
    pub path: Seq<char>,
    pub unit_type: UnitType,
    pub record_type: RecordType,
    pub count: Option<int>,
    pub title: Option<Seq<char>>,
    pub message: Option<Seq<char>>,
    pub command: Option<Seq<char>>,
    pub mode: Option<Seq<char>>,
    pub result: Option<Seq<char>>,
    pub tags: Seq<Seq<char>>,
}

/// An optional number as a mathematical integer.
pub open spec fn opt_int(o: Option<usize>) -> Option<int> {
    match o {
        Some(n) => Some(n as int),
        None => None,
    }
}

impl DeepView for Record {
    type V = RecordView;

    open spec fn deep_view(&self) -> RecordView {
        RecordView {
            index: self.index as int,
            start_line: opt_int(self.start_line),
            end_line: opt_int(self.end_line),
            path: self.path@,
            unit_type: self.unit_type,
            record_type: self.record_type,
            count: opt_int(self.count),
            title: self.title.deep_view(),
            message: self.message.deep_view(),
            command: self.command.deep_view(),
            mode: self.mode.deep_view(),
            result: self.result.deep_view(),
            tags: self.tags.deep_view(),
        }
    }
}

// ---------------------------------------------------------------------------
// The section format
// ---------------------------------------------------------------------------

/// A line that opens a section: `# ` once surrounding whitespace is dropped.
pub open spec fn is_section_header(l: Seq<char>) -> bool {
    starts_with(trim(l), "# "@)
}

/// A line that ends a plain block: a section or a sub-heading.
pub open spec fn ends_plain_block(l: Seq<char>) -> bool {
    starts_with(trim(l), "## "@) || starts_with(trim(l), "# "@)
}

/// A code fence line.
pub open spec fn is_fence(l: Seq<char>) -> bool {
    starts_with(trim(l), "```"@)
}

/// The text of a plain block gathered from line `p` on: each line trimmed and
/// ended by a newline, up to the first line that ends the block.
/// Gives the text and the position of that line (or the end).
pub open spec fn plain_scan(ls: Seq<Seq<char>>, p: int, buf: Seq<char>) -> (Seq<char>, int)
    decreases ls.len() - p,
{
    if p < 0 || p >= ls.len() || ends_plain_block(ls[p]) {
        (buf, p)
    } else {
        plain_scan(ls, p + 1, buf + trim(ls[p]) + seq!['\n'])
    }
}

/// The value of a block's text: absent when it is blank or the `{none}` marker.
pub open spec fn block_value(buf: Seq<char>) -> Option<Seq<char>> {
    let v = trim(buf);
    if v.len() == 0 || v == "{none}"@ {
        None
    } else {
        Some(v)
    }
}

/// A plain block starting at line `p`: its value and the line after it.
pub open spec fn plain_block(ls: Seq<Seq<char>>, p: int) -> (Option<Seq<char>>, int) {
    let (buf, q) = plain_scan(ls, p, seq![]);
    (block_value(buf), q)
}

/// The mode named on a fence line: the second word after the backticks.
pub open spec fn fence_mode(l: Seq<char>) -> Option<Seq<char>> {
    let parts = words(trim(trim_start_matches(trim(l), "```"@)));
    if parts.len() >= 2 {
        Some(parts[1])
    } else {
        None
    }
}

/// The opening fence from line `p` on: the mode it names and the line after it.
/// Lines before the fence are passed over.
pub open spec fn open_fence(ls: Seq<Seq<char>>, p: int) -> (Option<Seq<char>>, int)
    decreases ls.len() - p,
{
    if p < 0 || p >= ls.len() {
        (None, p)
    } else if is_fence(ls[p]) {
        (fence_mode(ls[p]), p + 1)
    } else {
        open_fence(ls, p + 1)
    }
}

/// The body of a code block from line `p` on: each line kept as it is and
/// ended by a newline, up to and past the closing fence.
pub open spec fn code_scan(ls: Seq<Seq<char>>, p: int, buf: Seq<char>) -> (Seq<char>, int)
    decreases ls.len() - p,
{
    if p < 0 || p >= ls.len() {
        (buf, p)
    } else if is_fence(ls[p]) {
        (buf, p + 1)
    } else {
        code_scan(ls, p + 1, buf + ls[p] + seq!['\n'])
    }
}

/// A code block starting at line `p`: the fence's mode, the body (absent when
/// blank) and the line after the closing fence.
pub open spec fn code_block(ls: Seq<Seq<char>>, p: int) -> (Option<Seq<char>>, Option<Seq<char>>, int) {
    let (mode, q) = open_fence(ls, p);
    let (buf, r) = code_scan(ls, q, seq![]);
    let body = trim(buf);
    (mode, if body.len() == 0 { None } else { Some(body) }, r)
}

pub proof fn lemma_plain_scan_pos(ls: Seq<Seq<char>>, p: int, buf: Seq<char>)
    requires
        0 <= p <= ls.len(),
    ensures
        p <= plain_scan(ls, p, buf).1 <= ls.len(),
    decreases ls.len() - p,
{
    if p < ls.len() && !ends_plain_block(ls[p]) {
        lemma_plain_scan_pos(ls, p + 1, buf + trim(ls[p]) + seq!['\n']);
    }
}

/// Reading a plain block on over `k` lines that open no heading gathers
/// those lines, each trimmed and with its newline.
pub proof fn lemma_plain_scan_over(ls: Seq<Seq<char>>, p: int, k: int, buf: Seq<char>)
    requires
        0 <= p,
        0 <= k,
        p + k <= ls.len(),
        forall|i: int| p <= i < p + k ==> !ends_plain_block(#[trigger] ls[i]),
    ensures
        plain_scan(ls, p, buf) == plain_scan(
            ls,
            p + k,
            buf + unlines(ls.subrange(p, p + k).map_values(|l: Seq<char>| trim(l))),
        ),
    decreases k,
{
    if k == 0 {
        assert(ls.subrange(p, p).map_values(|l: Seq<char>| trim(l)) =~= Seq::<Seq<char>>::empty());
        assert(unlines(Seq::<Seq<char>>::empty()) =~= Seq::<char>::empty());
        assert(buf + unlines(ls.subrange(p, p).map_values(|l: Seq<char>| trim(l))) =~= buf);
    } else {
        lemma_plain_scan_over(ls, p, k - 1, buf);
        let prev = ls.subrange(p, p + k - 1).map_values(|l: Seq<char>| trim(l));
        let cur = ls.subrange(p, p + k).map_values(|l: Seq<char>| trim(l));
        let b = buf + unlines(prev);
        assert(!ends_plain_block(ls[p + k - 1]));
        assert(plain_scan(ls, p + k - 1, b) == plain_scan(ls, p + k, b + trim(ls[p + k - 1]) + seq!['\n']));
        assert(cur.drop_last() =~= prev);
        assert(cur.last() == trim(ls[p + k - 1]));
        assert(b + trim(ls[p + k - 1]) + seq!['\n'] =~= buf + unlines(cur));
    }
}

/// Reading a code block on over `k` lines that are not fences gathers those
/// lines as they are, each with its newline.
pub proof fn lemma_code_scan_over(ls: Seq<Seq<char>>, p: int, k: int, buf: Seq<char>)
    requires
        0 <= p,
        0 <= k,
        p + k <= ls.len(),
        forall|i: int| p <= i < p + k ==> !is_fence(#[trigger] ls[i]),
    ensures
        code_scan(ls, p, buf) == code_scan(ls, p + k, buf + unlines(ls.subrange(p, p + k))),
    decreases k,
{
    if k == 0 {
        assert(ls.subrange(p, p) =~= Seq::<Seq<char>>::empty());
        assert(unlines(Seq::<Seq<char>>::empty()) =~= Seq::<char>::empty());
        assert(buf + unlines(ls.subrange(p, p)) =~= buf);
    } else {
        lemma_code_scan_over(ls, p, k - 1, buf);
        let b = buf + unlines(ls.subrange(p, p + k - 1));
        assert(!is_fence(ls[p + k - 1]));
        assert(code_scan(ls, p + k - 1, b) == code_scan(ls, p + k, b + ls[p + k - 1] + seq!['\n']));
        assert(ls.subrange(p, p + k).drop_last() =~= ls.subrange(p, p + k - 1));
        assert(ls.subrange(p, p + k).last() == ls[p + k - 1]);
        assert(b + ls[p + k - 1] + seq!['\n'] =~= buf + unlines(ls.subrange(p, p + k)));
    }
}

pub proof fn lemma_code_block_pos(ls: Seq<Seq<char>>, p: int)
    requires
        0 <= p <= ls.len(),
    ensures
        p <= code_block(ls, p).2 <= ls.len(),
        p < ls.len() ==> p < code_block(ls, p).2,
{
    lemma_open_fence_pos(ls, p);
    let (mode, q) = open_fence(ls, p);
    lemma_code_scan_pos(ls, q, seq![]);
}

proof fn lemma_open_fence_pos(ls: Seq<Seq<char>>, p: int)
    requires
        0 <= p <= ls.len(),
    ensures
        p <= open_fence(ls, p).1 <= ls.len(),
        p < ls.len() ==> p < open_fence(ls, p).1,
    decreases ls.len() - p,
{
    if p < ls.len() && !is_fence(ls[p]) {
        lemma_open_fence_pos(ls, p + 1);
    }
}

proof fn lemma_code_scan_pos(ls: Seq<Seq<char>>, p: int, buf: Seq<char>)
    requires
        0 <= p <= ls.len(),
    ensures
        p <= code_scan(ls, p, buf).1 <= ls.len(),
    decreases ls.len() - p,
{
    if p < ls.len() && !is_fence(ls[p]) {
        lemma_code_scan_pos(ls, p + 1, buf + ls[p] + seq!['\n']);
    }
}

// ---------------------------------------------------------------------------
// Reading blocks
// ---------------------------------------------------------------------------

/// Reads a plain block starting at line `start`: gives its value and the
/// position of the line that ends it.
pub fn read_plain_block(lines: &Vec<Vec<char>>, start: usize) -> (r: (Option<String>, usize))
    requires
        start <= lines.len(),
    ensures
        r.0.deep_view() == plain_block(chars_views(lines@), start as int).0,
        r.1 as int == plain_block(chars_views(lines@), start as int).1,
        start <= r.1 <= lines.len(),
{
    let ghost ls = chars_views(lines@);
    let h1 = to_chars("# ");
    let h2 = to_chars("## ");
    let mut buf: Vec<char> = Vec::new();
    let mut p: usize = start;
    while p < lines.len()
        invariant
            ls == chars_views(lines@),
            h1@ == "# "@,
            h2@ == "## "@,
            start <= p <= lines.len(),
            plain_scan(ls, start as int, seq![]) == plain_scan(ls, p as int, buf@),
        ensures
            start <= p <= lines.len(),
            plain_scan(ls, start as int, seq![]) == plain_scan(ls, p as int, buf@),
            p == lines.len() || ends_plain_block(ls[p as int]),
        decreases lines.len() - p,
    {
        let t = trim_chars(&lines[p]);
        assert(ls[p as int] == lines@[p as int]@);
        if starts_with_chars(&t, &h2) || starts_with_chars(&t, &h1) {
            break;
        }
        let ghost b0 = buf@;
        extend(&mut buf, &t);
        buf.push('\n');
        assert(buf@ =~= b0 + trim(ls[p as int]) + seq!['\n']);
        p = p + 1;
    }
    let v = trim_chars(&buf);
    let none = to_chars("{none}");
    if v.len() == 0 || chars_eq(&v, &none) {
        (None, p)
    } else {
        (Some(from_chars(&v)), p)
    }
}

/// The mode named on a fence line.
fn read_fence_mode(line: &Vec<char>) -> (r: Option<String>)
    ensures
        r.deep_view() == fence_mode(line@),
{
    let fence = to_chars("```");
    proof {
        reveal_strlit("```");
    }
    let t = trim_chars(line);
    let rest = trim_start_matches_chars(&t, &fence);
    let header = trim_chars(&rest);
    let parts = split_words(&header);
    if parts.len() >= 2 {
        assert(chars_views(parts@)[1] == parts@[1]@);
        Some(from_chars(&parts[1]))
    } else {
        None
    }
}

/// Reads a code block starting at line `start`: gives the mode its opening
/// fence names, its body, and the position after its closing fence.
pub fn read_code_block(lines: &Vec<Vec<char>>, start: usize) -> (r: (Option<String>, Option<String>, usize))
    requires
        start <= lines.len(),
    ensures
        r.0.deep_view() == code_block(chars_views(lines@), start as int).0,
        r.1.deep_view() == code_block(chars_views(lines@), start as int).1,
        r.2 as int == code_block(chars_views(lines@), start as int).2,
        start <= r.2 <= lines.len(),
{
    let ghost ls = chars_views(lines@);
    let fence = to_chars("```");
    let mut mode: Option<String> = None;
    let mut p: usize = start;
    // opening fence
    while p < lines.len()
        invariant_except_break
            mode is None,
            open_fence(ls, start as int) == open_fence(ls, p as int),
        invariant
            ls == chars_views(lines@),
            fence@ == "```"@,
            start <= p <= lines.len(),
        ensures
            start <= p <= lines.len(),
            open_fence(ls, start as int) == (mode.deep_view(), p as int),
        decreases lines.len() - p,
    {
        let t = trim_chars(&lines[p]);
        assert(ls[p as int] == lines@[p as int]@);
        if starts_with_chars(&t, &fence) {
            mode = read_fence_mode(&lines[p]);
            p = p + 1;
            break;
        }
        p = p + 1;
    }
    let q = p;
    // body
    let mut buf: Vec<char> = Vec::new();
    while p < lines.len()
        invariant_except_break
            code_scan(ls, q as int, seq![]) == code_scan(ls, p as int, buf@),
        invariant
            ls == chars_views(lines@),
            fence@ == "```"@,
            q <= p <= lines.len(),
        ensures
            q <= p <= lines.len(),
            code_scan(ls, q as int, seq![]) == (buf@, p as int),
        decreases lines.len() - p,
    {
        let t = trim_chars(&lines[p]);
        assert(ls[p as int] == lines@[p as int]@);
        if starts_with_chars(&t, &fence) {
            p = p + 1;
            break;
        }
        let ghost b0 = buf@;
        extend(&mut buf, &lines[p]);
        buf.push('\n');
        assert(buf@ =~= b0 + ls[p as int] + seq!['\n']);
        p = p + 1;
    }
    let body = trim_chars(&buf);
    let body_opt = if body.len() == 0 {
        None
    } else {
        Some(from_chars(&body))
    };
    (mode, body_opt, p)
}


// ---------------------------------------------------------------------------
// Sections
// ---------------------------------------------------------------------------

/// What the sub-blocks of one section have set so far.
pub struct SectionFields {
    pub message: Option<Seq<char>>,
    pub command: Option<Seq<char>>,
    pub mode: Option<Seq<char>>,
    pub result: Option<Seq<char>>,
    pub tags: Seq<Seq<char>>,
}

/// Nothing set yet.
pub open spec fn no_fields() -> SectionFields {
    SectionFields { message: None, command: None, mode: None, result: None, tags: seq![] }
}

/// The tags of a tag line: its comma-separated pieces, each trimmed.
pub open spec fn tag_list(line: Seq<char>) -> Seq<Seq<char>> {
    split_char(line, ',').map_values(|t: Seq<char>| trim(t))
}

/// The tags after a `## Tag` block with value `v`: replaced when the block has
/// a value, kept otherwise.
pub open spec fn apply_tags(tags: Seq<Seq<char>>, v: Option<Seq<char>>) -> Seq<Seq<char>> {
    match v {
        Some(x) => if x != "{none}"@ && x.len() > 0 {
            tag_list(x)
        } else {
            tags
        },
        None => tags,
    }
}

/// The body of a section from line `p` on, given what is set so far: the
/// fields once every sub-block up to the next section header is read, and the
/// position of that header (or the end).
pub open spec fn section_body(ls: Seq<Seq<char>>, p: int, f: SectionFields) -> (SectionFields, int)
    decreases ls.len() - p,
{
    if p < 0 || p >= ls.len() || is_section_header(ls[p]) {
        (f, p)
    } else {
        let t = trim(ls[p]);
        if t == "## Message"@ {
            proof {
                lemma_plain_scan_pos(ls, p + 1, seq![]);
            }
            let (m, q) = plain_block(ls, p + 1);
            section_body(ls, q, SectionFields { message: m, ..f })
        } else if t == "## Command"@ {
            proof {
                lemma_code_block_pos(ls, p + 1);
            }
            let (mo, c, q) = code_block(ls, p + 1);
            section_body(ls, q, SectionFields { mode: mo, command: c, ..f })
        } else if t == "## Result"@ {
            proof {
                lemma_code_block_pos(ls, p + 1);
            }
            let (mo, r, q) = code_block(ls, p + 1);
            section_body(ls, q, SectionFields { result: r, ..f })
        } else if t == "## Tag"@ {
            proof {
                lemma_plain_scan_pos(ls, p + 1, seq![]);
            }
            let (v, q) = plain_block(ls, p + 1);
            section_body(ls, q, SectionFields { tags: apply_tags(f.tags, v), ..f })
        } else {
            section_body(ls, p + 1, f)
        }
    }
}

pub proof fn lemma_section_body_pos(ls: Seq<Seq<char>>, p: int, f: SectionFields)
    requires
        0 <= p <= ls.len(),
    ensures
        p <= section_body(ls, p, f).1 <= ls.len(),
        section_body(ls, p, f).1 == ls.len() || is_section_header(ls[section_body(ls, p, f).1]),
    decreases ls.len() - p,
{
    if p < ls.len() && !is_section_header(ls[p]) {
        let t = trim(ls[p]);
        if t == "## Message"@ {
            lemma_plain_scan_pos(ls, p + 1, seq![]);
            let (m, q) = plain_block(ls, p + 1);
            lemma_section_body_pos(ls, q, SectionFields { message: m, ..f });
        } else if t == "## Command"@ {
            lemma_code_block_pos(ls, p + 1);
            let (mo, c, q) = code_block(ls, p + 1);
            lemma_section_body_pos(ls, q, SectionFields { mode: mo, command: c, ..f });
        } else if t == "## Result"@ {
            lemma_code_block_pos(ls, p + 1);
            let (mo, r, q) = code_block(ls, p + 1);
            lemma_section_body_pos(ls, q, SectionFields { result: r, ..f });
        } else if t == "## Tag"@ {
            lemma_plain_scan_pos(ls, p + 1, seq![]);
            let (v, q) = plain_block(ls, p + 1);
            lemma_section_body_pos(ls, q, SectionFields { tags: apply_tags(f.tags, v), ..f });
        } else {
            lemma_section_body_pos(ls, p + 1, f);
        }
    }
}

/// The title of a section header line.
pub open spec fn section_title(l: Seq<char>) -> Seq<char> {
    trim(trim_start_matches(trim(l), "# "@))
}

/// The record of one section: numbered `index`, its header at line `start`,
/// the next header (or the end of the file) at `end`.
pub open spec fn section_record(
    path: Seq<char>,
    record_type: RecordType,
    index: int,
    start: int,
    end: int,
    title: Seq<char>,
    f: SectionFields,
) -> RecordView {
    RecordView {
        index,
        start_line: Some(start),
        end_line: Some(end),
        path,
        unit_type: UnitType::Section,
        record_type,
        count: None,
        title: Some(title),
        message: f.message,
        command: f.command,
        mode: f.mode,
        result: f.result,
        tags: f.tags,
    }
}

/// The sections from line `p` on, numbered from `index`. Lines before the
/// first header belong to no section.
pub open spec fn sections_from(
    ls: Seq<Seq<char>>,
    p: int,
    index: int,
    path: Seq<char>,
    record_type: RecordType,
) -> Seq<RecordView>
    decreases ls.len() - p,
{
    if p < 0 || p >= ls.len() {
        seq![]
    } else if is_section_header(ls[p]) {
        proof {
            lemma_section_body_pos(ls, p + 1, no_fields());
        }
        let (f, e) = section_body(ls, p + 1, no_fields());
        seq![section_record(path, record_type, index, p, e, section_title(ls[p]), f)]
            + sections_from(ls, e, index + 1, path, record_type)
    } else {
        sections_from(ls, p + 1, index, path, record_type)
    }
}

/// The sections of a file with this text, numbered from zero.
pub open spec fn sections_of(content: Seq<char>, path: Seq<char>, record_type: RecordType) -> Seq<RecordView> {
    sections_from(lines(content), 0, 0, path, record_type)
}

/// What the sub-blocks of one section set, as read.
struct SectionParts {
    message: Option<String>,
    command: Option<String>,
    mode: Option<String>,
    result: Option<String>,
    tags: Vec<String>,
}

impl SectionParts {
    spec fn fields(&self) -> SectionFields {
        SectionFields {
            message: self.message.deep_view(),
            command: self.command.deep_view(),
            mode: self.mode.deep_view(),
            result: self.result.deep_view(),
            tags: self.tags.deep_view(),
        }
    }
}

/// The tags of a tag line.
fn read_tags(line: &String) -> (r: Vec<String>)
    ensures
        r.deep_view() == tag_list(line@),
{
    let cs = to_chars(line.as_str());
    let pieces = split_on(&cs, ',');
    let mut out: Vec<String> = Vec::new();
    let mut i: usize = 0;
    while i < pieces.len()
        invariant
            i <= pieces.len(),
            chars_views(pieces@) == split_char(line@, ','),
            out.deep_view() =~= tag_list(line@).take(i as int),
        decreases pieces.len() - i,
    {
        let t = trim_chars(&pieces[i]);
        assert(chars_views(pieces@)[i as int] == pieces@[i as int]@);
        let ghost before = out.deep_view();
        let st = from_chars(&t);
        out.push(st);
        assert(out.deep_view() =~= before.push(st@));
        assert(tag_list(line@)[i as int] == trim(pieces@[i as int]@));
        i = i + 1;
        assert(tag_list(line@).take(i as int) =~= tag_list(line@).take(i - 1).push(tag_list(line@)[i - 1]));
    }
    out
}

/// The tags after a `## Tag` block with value `v`.
fn apply_tag_block(tags: Vec<String>, v: Option<String>) -> (r: Vec<String>)
    ensures
        r.deep_view() == apply_tags(tags.deep_view(), v.deep_view()),
{
    match v {
        Some(x) => {
            let xc = to_chars(x.as_str());
            let none = to_chars("{none}");
            if !chars_eq(&xc, &none) && xc.len() > 0 {
                read_tags(&x)
            } else {
                tags
            }
        },
        None => tags,
    }
}

/// Reads the body of a section from line `start` on.
fn read_section_body(lines: &Vec<Vec<char>>, start: usize) -> (r: (SectionParts, usize))
    requires
        start <= lines.len(),
    ensures
        r.0.fields() == section_body(chars_views(lines@), start as int, no_fields()).0,
        r.1 as int == section_body(chars_views(lines@), start as int, no_fields()).1,
        start <= r.1 <= lines.len(),
{
    let ghost ls = chars_views(lines@);
    let h1 = to_chars("# ");
    let k_message = to_chars("## Message");
    let k_command = to_chars("## Command");
    let k_result = to_chars("## Result");
    let k_tag = to_chars("## Tag");
    let mut parts = SectionParts { message: None, command: None, mode: None, result: None, tags: Vec::new() };
    assert(parts.tags.deep_view() =~= Seq::<Seq<char>>::empty());
    assert(parts.fields() == no_fields());
    let mut p: usize = start;
    while p < lines.len()
        invariant
            ls == chars_views(lines@),
            h1@ == "# "@,
            k_message@ == "## Message"@,
            k_command@ == "## Command"@,
            k_result@ == "## Result"@,
            k_tag@ == "## Tag"@,
            start <= p <= lines.len(),
            section_body(ls, start as int, no_fields()) == section_body(ls, p as int, parts.fields()),
        ensures
            start <= p <= lines.len(),
            section_body(ls, start as int, no_fields()) == section_body(ls, p as int, parts.fields()),
            p == lines.len() || is_section_header(ls[p as int]),
        decreases lines.len() - p,
    {
        let t = trim_chars(&lines[p]);
        assert(ls[p as int] == lines@[p as int]@);
        if starts_with_chars(&t, &h1) {
            break;
        }
        let next = p + 1;
        if chars_eq(&t, &k_message) {
            let (m, q) = read_plain_block(lines, next);
            parts.message = m;
            p = q;
        } else if chars_eq(&t, &k_command) {
            let (mo, c, q) = read_code_block(lines, next);
            parts.mode = mo;
            parts.command = c;
            p = q;
        } else if chars_eq(&t, &k_result) {
            let (_mo, r, q) = read_code_block(lines, next);
            parts.result = r;
            p = q;
        } else if chars_eq(&t, &k_tag) {
            let (v, q) = read_plain_block(lines, next);
            let mut old_tags: Vec<String> = Vec::new();
            std::mem::swap(&mut old_tags, &mut parts.tags);
            parts.tags = apply_tag_block(old_tags, v);
            p = q;
        } else {
            p = next;
        }
    }
    (parts, p)
}

/// Builds the record of one section.
fn section_into_record(
    path: &String,
    record_type: RecordType,
    index: usize,
    start: usize,
    end: usize,
    title: Vec<char>,
    parts: SectionParts,
) -> (r: Record)
    ensures
        r.deep_view() == section_record(path@, record_type, index as int, start as int, end as int, title@, parts.fields()),
{
    Record {
        index,
        start_line: Some(start),
        end_line: Some(end),
        path: path.clone(),
        unit_type: UnitType::Section,
        record_type,
        count: None,
        title: Some(from_chars(&title)),
        message: parts.message,
        command: parts.command,
        mode: parts.mode,
        result: parts.result,
        tags: parts.tags,
    }
}

/// The sections of the file of `record`, whose text is `content`: one record
/// for each line that opens with `# `, numbered from zero, with the line span,
/// title, message, command, mode, result and tags read from its sub-blocks.
pub fn collect_sections(record: &Record, content: &str) -> (r: Vec<Record>)
    ensures
        r.deep_view() == sections_of(content@, record.path@, record.record_type),
        lines(content@).len() <= usize::MAX,
{
    let cs = to_chars(content);
    let ls_exec = split_lines(&cs);
    let ghost ls = chars_views(ls_exec@);
    let h1 = to_chars("# ");
    let mut out: Vec<Record> = Vec::new();
    let mut p: usize = 0;
    let mut index: usize = 0;
    assert(out.deep_view() + sections_from(ls, 0, 0, record.path@, record.record_type)
        =~= sections_of(content@, record.path@, record.record_type));
    while p < ls_exec.len()
        invariant
            ls == chars_views(ls_exec@),
            ls == lines(content@),
            h1@ == "# "@,
            p <= ls_exec.len(),
            index == out.len(),
            index <= p,
            sections_of(content@, record.path@, record.record_type)
                == out.deep_view() + sections_from(ls, p as int, index as int, record.path@, record.record_type),
        decreases ls_exec.len() - p,
    {
        let t = trim_chars(&ls_exec[p]);
        assert(ls[p as int] == ls_exec@[p as int]@);
        if starts_with_chars(&t, &h1) {
            proof {
                reveal_strlit("# ");
            }
            let rest = trim_start_matches_chars(&t, &h1);
            let title = trim_chars(&rest);
            let (parts, e) = read_section_body(&ls_exec, p + 1);
            proof {
                lemma_section_body_pos(ls, p + 1, no_fields());
            }
            let rec = section_into_record(&record.path, record.record_type, index, p, e, title, parts);
            let ghost before = out.deep_view();
            let ghost tail = sections_from(ls, e as int, index + 1, record.path@, record.record_type);
            out.push(rec);
            assert(out.deep_view() =~= before.push(rec.deep_view()));
            assert(before + (seq![rec.deep_view()] + tail) =~= before.push(rec.deep_view()) + tail);
            index = index + 1;
            p = e;
        } else {
            p = p + 1;
        }
    }
    assert(out.deep_view() + sections_from(ls, p as int, index as int, record.path@, record.record_type)
        =~= out.deep_view());
    out
}

/// Every section lies within the file, after its header, and sections are
/// numbered by their order.
pub open spec fn well_placed(secs: Seq<RecordView>, p: int, n: int, index: int) -> bool {
    forall|k: int|
        0 <= k < secs.len() ==> {
            let r = #[trigger] secs[k];
            &&& r.start_line matches Some(s)
            &&& r.end_line matches Some(e)
            &&& p <= s < e <= n
            &&& r.index == index + k
        }
}

/// The sections read from line `p` on lie within the file, each one ending no
/// earlier than the line after its header, numbered in order from `index`.
pub proof fn lemma_sections_placed(ls: Seq<Seq<char>>, p: int, index: int, path: Seq<char>, rt: RecordType)
    requires
        0 <= p <= ls.len(),
    ensures
        well_placed(sections_from(ls, p, index, path, rt), p, ls.len() as int, index),
    decreases ls.len() - p,
{
    if p < ls.len() {
        if is_section_header(ls[p]) {
            lemma_section_body_pos(ls, p + 1, no_fields());
            let (f, e) = section_body(ls, p + 1, no_fields());
            lemma_sections_placed(ls, e, index + 1, path, rt);
            let rest = sections_from(ls, e, index + 1, path, rt);
            let head = section_record(path, rt, index, p, e, section_title(ls[p]), f);
            let all = sections_from(ls, p, index, path, rt);
            assert(all == seq![head] + rest);
            assert forall|k: int| 0 <= k < all.len() implies {
                let r = #[trigger] all[k];
                &&& r.start_line matches Some(s)
                &&& r.end_line matches Some(e)
                &&& p <= s < e <= ls.len()
                &&& r.index == index + k
            } by {
                if k > 0 {
                    assert(all[k] == rest[k - 1]);
                }
            }
        } else {
            lemma_sections_placed(ls, p + 1, index, path, rt);
        }
    }
}

/// The number of lines that open with `# ` once leading whitespace is dropped.
pub open spec fn header_count(ls: Seq<Seq<char>>) -> nat
    decreases ls.len(),
{
    if ls.len() == 0 {
        0
    } else {
        header_count(ls.drop_last()) + if starts_with(trim_start(ls.last()), "# "@) {
            1nat
        } else {
            0nat
        }
    }
}

/// A line the listing counts as a header: `# ` once leading whitespace is dropped.
pub open spec fn counted(l: Seq<char>) -> bool {
    starts_with(trim_start(l), "# "@)
}

/// Header lines counted in two runs of lines are those of each run.
pub proof fn lemma_header_count_append(a: Seq<Seq<char>>, b: Seq<Seq<char>>)
    ensures
        header_count(a + b) == header_count(a) + header_count(b),
    decreases b.len(),
{
    if b.len() == 0 {
        assert(a + b =~= a);
    } else {
        lemma_header_count_append(a, b.drop_last());
        assert((a + b).drop_last() =~= a + b.drop_last());
        assert((a + b).last() == b.last());
    }
}

/// The number of sections in a file with this text.
pub fn count_section(content: &str) -> (n: usize)
    ensures
        n == header_count(lines(content@)),
{
    let cs = to_chars(content);
    let ls_exec = split_lines(&cs);
    let ghost ls = chars_views(ls_exec@);
    let h1 = to_chars("# ");
    let mut n: usize = 0;
    let mut i: usize = 0;
    assert(ls.take(0) =~= Seq::<Seq<char>>::empty());
    while i < ls_exec.len()
        invariant
            ls == chars_views(ls_exec@),
            h1@ == "# "@,
            i <= ls_exec.len(),
            n <= i,
            n == header_count(ls.take(i as int)),
        decreases ls_exec.len() - i,
    {
        let t = trim_start_chars(&ls_exec[i]);
        assert(ls[i as int] == ls_exec@[i as int]@);
        assert(ls.take(i + 1).drop_last() =~= ls.take(i as int));
        if starts_with_chars(&t, &h1) {
            n = n + 1;
        }
        i = i + 1;
    }
    assert(ls.take(ls_exec.len() as int) =~= ls);
    n
}


// ---------------------------------------------------------------------------
// Record types, writeups and listings
// ---------------------------------------------------------------------------

/// The collection a file belongs to, by the directories on its path.
pub open spec fn record_type_of(path: Seq<char>) -> RecordType {
    if path_components(path).contains("commands"@) {
        RecordType::Command
    } else if path_components(path).contains("tracks"@) {
        RecordType::Track
    } else {
        RecordType::Writeup
    }
}

/// Whether one of the components `cs` is `name`.
fn has_component(cs: &Vec<Vec<char>>, name: &Vec<char>) -> (r: bool)
    ensures
        r == chars_views(cs@).contains(name@),
{
    let mut i: usize = 0;
    while i < cs.len()
        invariant
            i <= cs.len(),
            forall|j: int| 0 <= j < i ==> chars_views(cs@)[j] != name@,
        decreases cs.len() - i,
    {
        assert(chars_views(cs@)[i as int] == cs@[i as int]@);
        if chars_eq(&cs[i], name) {
            return true;
        }
        i = i + 1;
    }
    false
}

/// The collection the file at `path` belongs to: commands when a directory
/// on its path is `commands`, else tracks when one is `tracks`, else writeups.
pub fn infer_record_type(path: &str) -> (r: RecordType)
    ensures
        r == record_type_of(path@),
{
    let cs = components(path);
    let commands = to_chars("commands");
    let tracks = to_chars("tracks");
    if has_component(&cs, &commands) {
        RecordType::Command
    } else if has_component(&cs, &tracks) {
        RecordType::Track
    } else {
        RecordType::Writeup
    }
}

/// The tags of a writeup from line `p` on: every `## Tag` block is applied in turn.
pub open spec fn writeup_tags(ls: Seq<Seq<char>>, p: int, tags: Seq<Seq<char>>) -> Seq<Seq<char>>
    decreases ls.len() - p,
{
    if p < 0 || p >= ls.len() {
        tags
    } else if trim(ls[p]) == "## Tag"@ {
        proof {
            lemma_plain_scan_pos(ls, p + 1, seq![]);
        }
        let (v, q) = plain_block(ls, p + 1);
        writeup_tags(ls, q, apply_tags(tags, v))
    } else {
        writeup_tags(ls, p + 1, tags)
    }
}

/// The stem of a path's file name, empty when it has none.
pub open spec fn stem_or_empty(path: Seq<char>) -> Seq<char> {
    match file_stem(path) {
        Some(s) => s,
        None => seq![],
    }
}

/// A writeup as one searchable record: the record of its file titled with the
/// file's stem, with its whole text as message (so that a search reads all of
/// it), the `/* file */` marker as command and the tags its text gives.
pub open spec fn writeup_of(r: RecordView, content: Seq<char>) -> RecordView {
    RecordView {
        title: Some(stem_or_empty(r.path)),
        message: Some(content),
        command: Some("/* file */"@),
        tags: writeup_tags(lines(content), 0, seq![]),
        ..r
    }
}

/// A copy of an optional string.
fn clone_opt(o: &Option<String>) -> (r: Option<String>)
    ensures
        r.deep_view() == o.deep_view(),
{
    match o {
        Some(s) => Some(s.clone()),
        None => None,
    }
}

/// A copy of a list of strings.
fn clone_strings(v: &Vec<String>) -> (r: Vec<String>)
    ensures
        r.deep_view() == v.deep_view(),
{
    let mut out: Vec<String> = Vec::new();
    let mut i: usize = 0;
    while i < v.len()
        invariant
            i <= v.len(),
            out.deep_view() =~= v.deep_view().take(i as int),
        decreases v.len() - i,
    {
        let ghost before = out.deep_view();
        let s = v[i].clone();
        out.push(s);
        assert(out.deep_view() =~= before.push(v[i as int]@));
        i = i + 1;
        assert(v.deep_view().take(i as int) =~= v.deep_view().take(i - 1).push(v.deep_view()[i - 1]));
    }
    assert(v.deep_view().take(v.len() as int) =~= v.deep_view());
    out
}

impl Record {
    /// A copy of this record.
    pub fn duplicate(&self) -> (r: Record)
        ensures
            r.deep_view() == self.deep_view(),
    {
        Record {
            index: self.index,
            start_line: self.start_line,
            end_line: self.end_line,
            path: self.path.clone(),
            unit_type: self.unit_type,
            record_type: self.record_type,
            count: self.count,
            title: clone_opt(&self.title),
            message: clone_opt(&self.message),
            command: clone_opt(&self.command),
            mode: clone_opt(&self.mode),
            result: clone_opt(&self.result),
            tags: clone_strings(&self.tags),
        }
    }
}

/// The writeup record for `record`, whose file has the text `content`.
pub fn collect_writeup(record: &Record, content: &str) -> (r: Record)
    ensures
        r.deep_view() == writeup_of(record.deep_view(), content@),
{
    let cs = to_chars(content);
    let ls_exec = split_lines(&cs);
    let ghost ls = chars_views(ls_exec@);
    let k_tag = to_chars("## Tag");
    let mut tags: Vec<String> = Vec::new();
    assert(tags.deep_view() =~= Seq::<Seq<char>>::empty());
    let mut p: usize = 0;
    while p < ls_exec.len()
        invariant
            ls == chars_views(ls_exec@),
            k_tag@ == "## Tag"@,
            p <= ls_exec.len(),
            writeup_tags(ls, 0, seq![]) == writeup_tags(ls, p as int, tags.deep_view()),
        decreases ls_exec.len() - p,
    {
        let t = trim_chars(&ls_exec[p]);
        assert(ls[p as int] == ls_exec@[p as int]@);
        if chars_eq(&t, &k_tag) {
            let (v, q) = read_plain_block(&ls_exec, p + 1);
            tags = apply_tag_block(tags, v);
            p = q;
        } else {
            p = p + 1;
        }
    }
    let stem = path_stem(record.path.as_str());
    let mut out = record.duplicate();
    out.title = Some(from_chars(&stem));
    out.message = Some(content.to_owned());
    out.command = Some("/* file */".to_owned());
    out.tags = tags;
    out
}

/// A file found under a records directory: its path, and its text when it
/// could be read.
pub struct MdFile {
    pub path: String,
    pub content: Option<String>,
}

/// The text of an optionally read file, empty when it was not read.
pub open spec fn text_or_empty(c: Option<String>) -> Seq<char> {
    match c {
        Some(s) => s@,
        None => seq![],
    }
}

/// The listing record of the markdown file at `path` with text `content`.
pub open spec fn file_record(path: Seq<char>, content: Seq<char>) -> RecordView {
    RecordView {
        index: 0,
        start_line: None,
        end_line: None,
        path,
        unit_type: UnitType::MdFile,
        record_type: record_type_of(path),
        count: Some(header_count(lines(content)) as int),
        title: Some(stem_or_empty(path)),
        message: None,
        command: None,
        mode: None,
        result: None,
        tags: seq![],
    }
}

/// The records of the markdown files among `files`, in their order.
pub open spec fn md_file_records(files: Seq<MdFile>) -> Seq<RecordView>
    decreases files.len(),
{
    if files.len() == 0 {
        seq![]
    } else {
        md_file_records(files.drop_last()) + if extension(files.last().path@) == Some(seq!['m', 'd']) {
            seq![file_record(files.last().path@, text_or_empty(files.last().content))]
        } else {
            seq![]
        }
    }
}

/// `sorted` with `x` put after every record whose path does not come after it.
pub open spec fn insert_by_path(sorted: Seq<RecordView>, x: RecordView) -> Seq<RecordView>
    decreases sorted.len(),
{
    if sorted.len() > 0 && path_less(x.path, sorted.last().path) {
        insert_by_path(sorted.drop_last(), x).push(sorted.last())
    } else {
        sorted.push(x)
    }
}

/// `s` stably sorted by path.
pub open spec fn sort_by_path(s: Seq<RecordView>) -> Seq<RecordView>
    decreases s.len(),
{
    if s.len() == 0 {
        seq![]
    } else {
        insert_by_path(sort_by_path(s.drop_last()), s.last())
    }
}

/// `s` with every record numbered by its position.
pub open spec fn reindex(s: Seq<RecordView>) -> Seq<RecordView> {
    Seq::new(s.len(), |i: int| RecordView { index: i, ..s[i] })
}

/// The listing of a directory whose files are `files`.
pub open spec fn listing(files: Seq<MdFile>) -> Seq<RecordView> {
    reindex(sort_by_path(md_file_records(files)))
}

proof fn lemma_insert_at(s: Seq<RecordView>, x: RecordView, j: int)
    requires
        0 <= j <= s.len(),
        forall|k: int| j <= k < s.len() ==> path_less(x.path, #[trigger] s[k].path),
        j == 0 || !path_less(x.path, s[j - 1].path),
    ensures
        insert_by_path(s, x) == s.insert(j, x),
    decreases s.len(),
{
    if s.len() > j {
        assert(path_less(x.path, s[s.len() - 1].path));
        lemma_insert_at(s.drop_last(), x, j);
        assert(s.drop_last().insert(j, x).push(s.last()) =~= s.insert(j, x));
    } else {
        assert(s.push(x) =~= s.insert(j, x));
    }
}

/// Whether the path `a` comes before the path `b`.
pub fn path_less_exec(a: &String, b: &String) -> (r: bool)
    ensures
        r == path_less(a@, b@),
{
    let ca = components(a.as_str());
    let cb = components(b.as_str());
    components_less_exec(&ca, &cb)
}

/// The listing of the markdown files among `files` (as a directory walk finds
/// them): one record per file whose extension is `md`, typed by its path,
/// titled with its stem, counting its sections (none when it was not read),
/// sorted by path and numbered in that order.
pub fn collect_records(files: &Vec<MdFile>) -> (r: Vec<Record>)
    ensures
        r.deep_view() == listing(files@),
{
    let mut sorted: Vec<Record> = Vec::new();
    let mut i: usize = 0;
    assert(files@.take(0) =~= Seq::<MdFile>::empty());
    assert(sorted.deep_view() =~= Seq::<RecordView>::empty());
    while i < files.len()
        invariant
            i <= files.len(),
            sorted.deep_view() == sort_by_path(md_file_records(files@.take(i as int))),
        decreases files.len() - i,
    {
        let f = &files[i];
        assert(files@.take(i + 1).drop_last() =~= files@.take(i as int));
        assert(files@.take(i + 1).last() == files@[i as int]);
        if is_md_path(f.path.as_str()) {
            let count = match &f.content {
                Some(c) => count_section(c.as_str()),
                None => {
                    let n = count_section("");
                    proof {
                        reveal_strlit("");
                    }
                    assert(""@ =~= Seq::<char>::empty());
                    n
                },
            };
            let stem = path_stem(f.path.as_str());
            let rec = Record {
                index: 0,
                start_line: None,
                end_line: None,
                path: f.path.clone(),
                unit_type: UnitType::MdFile,
                record_type: infer_record_type(f.path.as_str()),
                count: Some(count),
                title: Some(from_chars(&stem)),
                message: None,
                command: None,
                mode: None,
                result: None,
                tags: Vec::new(),
            };
            assert(rec.tags.deep_view() =~= Seq::<Seq<char>>::empty());
            assert(rec.deep_view() == file_record(f.path@, text_or_empty(f.content)));
            assert(md_file_records(files@.take(i + 1)) =~= md_file_records(files@.take(i as int)).push(rec.deep_view()));
            let ghost t = md_file_records(files@.take(i + 1));
            assert(t.drop_last() =~= md_file_records(files@.take(i as int)));
            assert(t.last() == rec.deep_view());
            assert(sort_by_path(t) == insert_by_path(sort_by_path(t.drop_last()), t.last()));
            // insertion
            let ghost s = sorted.deep_view();
            let mut j: usize = sorted.len();
            while j > 0 && path_less_exec(&rec.path, &sorted[j - 1].path)
                invariant
                    j <= sorted.len(),
                    s == sorted.deep_view(),
                    forall|k: int| j <= k < s.len() ==> path_less(rec.path@, #[trigger] s[k].path),
                decreases j,
            {
                j = j - 1;
            }
            proof {
                lemma_insert_at(s, rec.deep_view(), j as int);
            }
            sorted.insert(j, rec);
            assert(sorted.deep_view() =~= s.insert(j as int, rec.deep_view()));
        } else {
            assert(md_file_records(files@.take(i + 1)) =~= md_file_records(files@.take(i as int)));
        }
        i = i + 1;
    }
    assert(files@.take(files.len() as int) =~= files@);
    renumber(&mut sorted);
    sorted
}

/// Numbers every record of `v` by its position.
pub fn renumber(v: &mut Vec<Record>)
    ensures
        final(v).deep_view() == reindex(old(v).deep_view()),
{
    let ghost s = v.deep_view();
    let mut k: usize = 0;
    while k < v.len()
        invariant
            k <= v.len(),
            s.len() == v.len(),
            forall|m: int| 0 <= m < k ==> #[trigger] v.deep_view()[m] == reindex(s)[m],
            forall|m: int| k <= m < v.len() ==> #[trigger] v.deep_view()[m] == s[m],
        decreases v.len() - k,
    {
        let ghost before = v@;
        let ghost old_dv = v.deep_view();
        assert(v.deep_view()[k as int] == s[k as int]);
        assert(before[k as int].deep_view() == s[k as int]);
        v[k].index = k;
        assert(v@[k as int].index == k);
        assert(v@[k as int].path == before[k as int].path);
        assert(v@[k as int].deep_view() == reindex(s)[k as int]);
        assert(forall|m: int| 0 <= m < v.len() && m != k ==> v@[m] == before[m]);
        assert forall|m: int| 0 <= m <= k implies #[trigger] v.deep_view()[m] == reindex(s)[m] by {
            if m < k {
                assert(old_dv[m] == reindex(s)[m]);
            }
        }
        assert forall|m: int| k < m < v.len() implies #[trigger] v.deep_view()[m] == s[m] by {
            assert(old_dv[m] == s[m]);
        }
        k = k + 1;
    }
    assert(v.deep_view() =~= reindex(s));
}

/// The text of the file at `path` among `files`: that of the first file with
/// that path, none when there is none or it was not read.
pub open spec fn content_of(files: Seq<MdFile>, path: Seq<char>) -> Option<Seq<char>>
    decreases files.len(),
{
    if files.len() == 0 {
        None
    } else if files[0].path@ == path {
        files[0].content.deep_view()
    } else {
        content_of(files.drop_first(), path)
    }
}

/// The text of the file at `path` among `files`.
pub fn find_content<'a>(files: &'a Vec<MdFile>, path: &String) -> (r: Option<&'a String>)
    ensures
        match r {
            Some(c) => content_of(files@, path@) == Some(c@),
            None => content_of(files@, path@) is None,
        },
{
    let mut i: usize = 0;
    assert(files@.skip(0) =~= files@);
    while i < files.len()
        invariant
            i <= files.len(),
            content_of(files@, path@) == content_of(files@.skip(i as int), path@),
        decreases files.len() - i,
    {
        assert(files@.skip(i as int)[0] == files@[i as int]);
        if files[i].path == *path {
            return match &files[i].content {
                Some(c) => Some(c),
                None => None,
            };
        }
        assert(files@.skip(i as int).drop_first() =~= files@.skip(i + 1));
        i = i + 1;
    }
    None
}


// ---------------------------------------------------------------------------
// Showing records
// ---------------------------------------------------------------------------

/// The text of a section rendered as a record entry: missing title, message
/// and result shown as `{none}`, the tags joined with commas.
pub open spec fn spec_render_section(r: RecordView) -> Seq<char> {
    record_text(or_none(r.title), or_none(r.message), r.command, r.mode, or_none(r.result), join_words(r.tags, ","@))
}

/// The text of `section` rendered as a record entry.
pub fn render_section(section: &Record) -> (r: Result<String, OrsError>)
    ensures
        result_view(r) == Ok::<Seq<char>, OrsErrorView>(spec_render_section(section.deep_view())),
{
    let title = match &section.title {
        Some(t) => t.clone(),
        None => "{none}".to_owned(),
    };
    let message = match &section.message {
        Some(t) => t.clone(),
        None => "{none}".to_owned(),
    };
    let result = match &section.result {
        Some(t) => t.clone(),
        None => "{none}".to_owned(),
    };
    let tag = join_strings(&section.tags, ",");
    let command: Option<&str> = match &section.command {
        Some(c) => Some(c.as_str()),
        None => None,
    };
    let mode: Option<&str> = match &section.mode {
        Some(m) => Some(m.as_str()),
        None => None,
    };
    match render_record(RECORD_TEMPLATE, title.as_str(), message.as_str(), command, mode, result.as_str(), tag.as_str()) {
        Ok(text) => Ok(text),
        Err(_) => Err(OrsError::Render),
    }
}

/// A markdown file's text with its relative image links (`](./images/`)
/// pointed at the `images` directory under the records directory, when one
/// is configured.
pub open spec fn converted_image_paths(content: Seq<char>, records_dir: Option<Seq<char>>) -> Seq<char> {
    match records_dir {
        None => content,
        Some(d) => replace(content, "](./images/"@, "]("@ + join(d, "images"@) + "/"@),
    }
}

/// The text of a markdown file with its image links made absolute.
pub fn convert_image_paths(content: &str, records_dir: Option<&str>) -> (r: String)
    ensures
        r@ == converted_image_paths(content@, str_opt(records_dir)),
{
    match records_dir {
        None => content.to_owned(),
        Some(d) => {
            let images = join_path(d, "images");
            let mut to: Vec<char> = to_chars("](");
            extend(&mut to, &to_chars(images.as_str()));
            extend(&mut to, &to_chars("/"));
            let from = to_chars("](./images/");
            let out = replace_chars(&to_chars(content), &from, &to);
            from_chars(&out)
        },
    }
}

/// The viewer command line for a file: the viewer setting split into words,
/// then the file.
pub open spec fn viewer_args(viewer: Seq<char>, file: Seq<char>) -> Seq<Seq<char>> {
    words(viewer).push(file)
}

/// The command line that shows `file` with the viewer set as `viewer`; the
/// first word is the program.
pub fn viewer_command(viewer: &str, file: &str) -> (r: Vec<String>)
    requires
        words(viewer@).len() >= 1,
    ensures
        r.deep_view() == viewer_args(viewer@, file@),
{
    let parts = split_words(&to_chars(viewer));
    let mut out: Vec<String> = Vec::new();
    let mut i: usize = 0;
    while i < parts.len()
        invariant
            i <= parts.len(),
            chars_views(parts@) == words(viewer@),
            out.deep_view() =~= words(viewer@).take(i as int),
        decreases parts.len() - i,
    {
        let ghost before = out.deep_view();
        assert(chars_views(parts@)[i as int] == parts@[i as int]@);
        let w = from_chars(&parts[i]);
        out.push(w);
        assert(out.deep_view() =~= before.push(w@));
        i = i + 1;
        assert(words(viewer@).take(i as int) =~= words(viewer@).take(i - 1).push(words(viewer@)[i - 1]));
    }
    assert(words(viewer@).take(parts.len() as int) =~= words(viewer@));
    let ghost before = out.deep_view();
    out.push(file.to_owned());
    assert(out.deep_view() =~= before.push(file@));
    out
}


// ---------------------------------------------------------------------------
// Laws of listings
// ---------------------------------------------------------------------------

/// No record of `s` comes after a later one in path order.
pub open spec fn sorted_by_path(s: Seq<RecordView>) -> bool {
    forall|i: int, j: int| 0 <= i < j < s.len() ==> !path_less(#[trigger] s[j].path, #[trigger] s[i].path)
}

/// Inserting by path puts `x` at one position and keeps a sorted sequence sorted.
proof fn lemma_insert_by_path(t: Seq<RecordView>, x: RecordView) -> (j: int)
    ensures
        0 <= j <= t.len(),
        insert_by_path(t, x) == t.insert(j, x),
        sorted_by_path(t) ==> sorted_by_path(insert_by_path(t, x)),
    decreases t.len(),
{
    if t.len() > 0 && path_less(x.path, t.last().path) {
        let j = lemma_insert_by_path(t.drop_last(), x);
        let r0 = t.drop_last().insert(j, x);
        let r = r0.push(t.last());
        assert(r =~= t.insert(j, x));
        if sorted_by_path(t) {
            assert(sorted_by_path(t.drop_last()));
            assert(sorted_by_path(r0));
            lemma_path_less_asymmetric(x.path, t.last().path);
            assert forall|a: int, b: int| 0 <= a < b < r.len() implies !path_less(#[trigger] r[b].path, #[trigger] r[a].path) by {
                if b == r.len() - 1 {
                    if a < j {
                        assert(r[a] == t[a]);
                        assert(!path_less(t[t.len() - 1].path, t[a].path));
                    } else if a > j {
                        assert(r[a] == t[a - 1]);
                        assert(!path_less(t[t.len() - 1].path, t[a - 1].path));
                    } else {
                        assert(r[a] == x);
                    }
                } else {
                    assert(r[a] == r0[a]);
                    assert(r[b] == r0[b]);
                }
            }
        }
        j
    } else {
        assert(t.push(x) =~= t.insert(t.len() as int, x));
        if sorted_by_path(t) {
            let r = t.push(x);
            assert forall|a: int, b: int| 0 <= a < b < r.len() implies !path_less(#[trigger] r[b].path, #[trigger] r[a].path) by {
                if b == r.len() - 1 {
                    assert(r[b] == x);
                    assert(r[a] == t[a]);
                    if a < t.len() - 1 {
                        assert(!path_less(t[t.len() - 1].path, t[a].path));
                        lemma_path_not_less_transitive(t[a].path, t.last().path, x.path);
                    }
                } else {
                    assert(r[a] == t[a]);
                    assert(r[b] == t[b]);
                }
            }
        }
        t.len() as int
    }
}

/// Sorting by path gives a sorted arrangement of the same records.
pub proof fn lemma_sort_by_path(s: Seq<RecordView>)
    ensures
        sorted_by_path(sort_by_path(s)),
        sort_by_path(s).to_multiset() == s.to_multiset(),
        sort_by_path(s).len() == s.len(),
    decreases s.len(),
{
    broadcast use vstd::seq_lib::to_multiset_insert, vstd::seq_lib::to_multiset_build;

    if s.len() > 0 {
        let dl = s.drop_last();
        lemma_sort_by_path(dl);
        let j = lemma_insert_by_path(sort_by_path(dl), s.last());
        assert(dl.push(s.last()) =~= s);
        assert(sort_by_path(s) == sort_by_path(dl).insert(j, s.last()));
        assert(sort_by_path(dl).insert(j, s.last()).to_multiset() == sort_by_path(dl).to_multiset().insert(s.last()));
        assert(dl.push(s.last()).to_multiset() == dl.to_multiset().insert(s.last()));
    } else {
        assert(s =~= Seq::<RecordView>::empty());
    }
}

/// A record with its number cleared.
pub open spec fn unnumbered(r: RecordView) -> RecordView {
    RecordView { index: 0, ..r }
}

/// A listing holds each markdown file of the directory once (a record as
/// `file_record` gives it), sorted by path and numbered by position.
pub proof fn law_listing_sorted_and_complete(files: Seq<MdFile>)
    ensures
        sorted_by_path(listing(files)),
        forall|i: int| 0 <= i < listing(files).len() ==> #[trigger] listing(files)[i].index == i,
        listing(files).map_values(|r: RecordView| unnumbered(r)).to_multiset() == md_file_records(files).to_multiset(),
{
    let m = md_file_records(files);
    lemma_sort_by_path(m);
    lemma_md_file_records_unnumbered(files);
    let l = listing(files);
    let srt = sort_by_path(m);
    assert forall|i: int, j: int| 0 <= i < j < l.len() implies !path_less(#[trigger] l[j].path, #[trigger] l[i].path) by {
        assert(l[i].path == srt[i].path);
        assert(l[j].path == srt[j].path);
    }
    assert forall|i: int| 0 <= i < srt.len() implies #[trigger] srt[i].index == 0 by {
        assert(srt.to_multiset().count(srt[i]) > 0) by {
            broadcast use vstd::seq_lib::to_multiset_contains;
            assert(srt.contains(srt[i]));
        }
        assert(m.to_multiset().count(srt[i]) > 0);
        broadcast use vstd::seq_lib::to_multiset_contains;
        assert(m.contains(srt[i]));
    }
    let un = l.map_values(|r: RecordView| unnumbered(r));
    assert forall|i: int| 0 <= i < l.len() implies #[trigger] un[i] == srt[i] by {
        assert(srt[i].index == 0);
    }
    assert(un =~= srt);
}

/// Each record of the markdown files is the record of one of them.
proof fn lemma_md_file_records_from(files: Seq<MdFile>)
    ensures
        forall|k: int|
            0 <= k < md_file_records(files).len() ==> exists|j: int|
                0 <= j < files.len() && extension(files[j].path@) == Some(seq!['m', 'd'])
                    && #[trigger] md_file_records(files)[k] == file_record(files[j].path@, text_or_empty(files[j].content)),
    decreases files.len(),
{
    if files.len() > 0 {
        let dl = files.drop_last();
        lemma_md_file_records_from(dl);
        let m = md_file_records(files);
        let md = md_file_records(dl);
        assert forall|k: int| 0 <= k < m.len() implies exists|j: int|
            0 <= j < files.len() && extension(files[j].path@) == Some(seq!['m', 'd'])
                && #[trigger] m[k] == file_record(files[j].path@, text_or_empty(files[j].content)) by {
            if k < md.len() {
                assert(m[k] == md[k]);
                let j = choose|j: int|
                    0 <= j < dl.len() && extension(dl[j].path@) == Some(seq!['m', 'd'])
                        && md[k] == file_record(dl[j].path@, text_or_empty(dl[j].content));
                assert(files[j] == dl[j]);
            } else {
                let j = files.len() - 1;
                assert(files[j] == files.last());
            }
        }
    }
}

/// Each entry of a listing describes one markdown file of the directory, as
/// the file gives it: numbered by its position, a whole-file record typed by
/// the directories on its path, titled with its stem (empty when it has
/// none), counting its header lines (none when it was not read), and with no
/// lines, message, command, mode, result or tags.
pub proof fn law_listing_describes_files(files: Seq<MdFile>)
    ensures
        forall|i: int|
            0 <= i < listing(files).len() ==> exists|j: int|
                0 <= j < files.len() && extension(files[j].path@) == Some(seq!['m', 'd']) && {
                    let r = #[trigger] listing(files)[i];
                    &&& r.index == i
                    &&& r.path == files[j].path@
                    &&& r.unit_type == UnitType::MdFile
                    &&& r.record_type == record_type_of(files[j].path@)
                    &&& r.title == Some(stem_or_empty(files[j].path@))
                    &&& r.count == Some(header_count(lines(text_or_empty(files[j].content))) as int)
                    &&& r.start_line is None && r.end_line is None
                    &&& r.message is None && r.command is None && r.mode is None && r.result is None
                    &&& r.tags.len() == 0
                },
{
    law_listing_sorted_and_complete(files);
    lemma_md_file_records_from(files);
    let l = listing(files);
    let m = md_file_records(files);
    let un = l.map_values(|r: RecordView| unnumbered(r));
    assert forall|i: int| 0 <= i < l.len() implies exists|j: int|
        0 <= j < files.len() && extension(files[j].path@) == Some(seq!['m', 'd']) && {
            let r = #[trigger] l[i];
            &&& r.index == i
            &&& r.path == files[j].path@
            &&& r.unit_type == UnitType::MdFile
            &&& r.record_type == record_type_of(files[j].path@)
            &&& r.title == Some(stem_or_empty(files[j].path@))
            &&& r.count == Some(header_count(lines(text_or_empty(files[j].content))) as int)
            &&& r.start_line is None && r.end_line is None
            &&& r.message is None && r.command is None && r.mode is None && r.result is None
            &&& r.tags.len() == 0
        } by {
        broadcast use vstd::seq_lib::to_multiset_contains;
        assert(un[i] == unnumbered(l[i]));
        assert(un.contains(un[i]));
        assert(un.to_multiset().count(un[i]) > 0);
        assert(m.to_multiset().count(un[i]) > 0);
        assert(m.contains(un[i]));
        let k = choose|k: int| 0 <= k < m.len() && m[k] == un[i];
        let j = choose|j: int|
            0 <= j < files.len() && extension(files[j].path@) == Some(seq!['m', 'd'])
                && m[k] == file_record(files[j].path@, text_or_empty(files[j].content));
        assert(l[i].index == i);
    }
}

/// No two records of `s` have paths with the same components.
pub open spec fn distinct_paths(s: Seq<RecordView>) -> bool {
    forall|a: int, b: int|
        0 <= a < b < s.len() ==> path_components(#[trigger] s[a].path) != path_components(#[trigger] s[b].path)
}

/// Sorting records whose paths differ gives records whose paths differ, each
/// one of the records sorted.
proof fn lemma_sort_distinct(s: Seq<RecordView>)
    requires
        distinct_paths(s),
    ensures
        distinct_paths(sort_by_path(s)),
        forall|k: int| 0 <= k < sort_by_path(s).len() ==> exists|a: int| 0 <= a < s.len() && s[a] == #[trigger] sort_by_path(s)[k],
    decreases s.len(),
{
    if s.len() > 0 {
        let dl = s.drop_last();
        assert forall|a: int, b: int| 0 <= a < b < dl.len() implies path_components(#[trigger] dl[a].path)
            != path_components(#[trigger] dl[b].path) by {
            assert(dl[a] == s[a] && dl[b] == s[b]);
        }
        lemma_sort_distinct(dl);
        lemma_sort_by_path(dl);
        let t = sort_by_path(dl);
        let x = s.last();
        let j = lemma_insert_by_path(t, x);
        let r = sort_by_path(s);
        assert(dl.push(x) =~= s);
        assert(r == t.insert(j, x));
        assert forall|k: int| 0 <= k < t.len() implies path_components(#[trigger] t[k].path) != path_components(x.path) by {
            let a = choose|a: int| 0 <= a < dl.len() && dl[a] == t[k];
            assert(s[a] == dl[a]);
            assert(s[s.len() - 1] == x);
        }
        assert forall|a: int, b: int| 0 <= a < b < r.len() implies path_components(#[trigger] r[a].path)
            != path_components(#[trigger] r[b].path) by {
            if a < j && b < j {
                assert(r[a] == t[a] && r[b] == t[b]);
            } else if a < j && b == j {
                assert(r[a] == t[a] && r[b] == x);
            } else if a < j {
                assert(r[a] == t[a] && r[b] == t[b - 1]);
            } else if a == j {
                assert(r[a] == x && r[b] == t[b - 1]);
            } else {
                assert(r[a] == t[a - 1] && r[b] == t[b - 1]);
            }
        }
        assert forall|k: int| 0 <= k < r.len() implies exists|a: int| 0 <= a < s.len() && s[a] == #[trigger] r[k] by {
            if k < j {
                let a = choose|a: int| 0 <= a < dl.len() && dl[a] == t[k];
                assert(r[k] == t[k] && s[a] == dl[a]);
            } else if k == j {
                assert(r[k] == x && s[s.len() - 1] == x);
            } else {
                let a = choose|a: int| 0 <= a < dl.len() && dl[a] == t[k - 1];
                assert(r[k] == t[k - 1] && s[a] == dl[a]);
            }
        }
    }
}

/// Files whose paths differ give records whose paths differ.
proof fn lemma_md_file_records_distinct(files: Seq<MdFile>)
    requires
        forall|a: int, b: int|
            0 <= a < b < files.len() ==> path_components(#[trigger] files[a].path@) != path_components(
                #[trigger] files[b].path@,
            ),
    ensures
        distinct_paths(md_file_records(files)),
    decreases files.len(),
{
    if files.len() > 0 {
        let dl = files.drop_last();
        assert forall|a: int, b: int| 0 <= a < b < dl.len() implies path_components(#[trigger] dl[a].path@)
            != path_components(#[trigger] dl[b].path@) by {
            assert(dl[a] == files[a] && dl[b] == files[b]);
        }
        lemma_md_file_records_distinct(dl);
        lemma_md_file_records_from(dl);
        let m = md_file_records(files);
        let md = md_file_records(dl);
        assert forall|a: int, b: int| 0 <= a < b < m.len() implies path_components(#[trigger] m[a].path)
            != path_components(#[trigger] m[b].path) by {
            assert(m[a] == md[a]);
            if b < md.len() {
                assert(m[b] == md[b]);
            } else {
                let j = choose|j: int|
                    0 <= j < dl.len() && extension(dl[j].path@) == Some(seq!['m', 'd'])
                        && md[a] == file_record(dl[j].path@, text_or_empty(dl[j].content));
                assert(dl[j] == files[j]);
                assert(m[b].path == files.last().path@);
                assert(files[files.len() - 1] == files.last());
            }
        }
    }
}

/// A listing of files whose paths have different components is in strictly
/// increasing path order.
pub proof fn law_listing_strictly_ordered(files: Seq<MdFile>)
    requires
        forall|a: int, b: int|
            0 <= a < b < files.len() ==> path_components(#[trigger] files[a].path@) != path_components(
                #[trigger] files[b].path@,
            ),
    ensures
        forall|i: int, j: int| 0 <= i < j < listing(files).len() ==> path_less(#[trigger] listing(files)[i].path, #[trigger] listing(files)[j].path),
{
    let m = md_file_records(files);
    lemma_md_file_records_distinct(files);
    lemma_sort_distinct(m);
    lemma_sort_by_path(m);
    let srt = sort_by_path(m);
    let l = listing(files);
    assert forall|i: int, j: int| 0 <= i < j < l.len() implies path_less(#[trigger] l[i].path, #[trigger] l[j].path) by {
        assert(l[i].path == srt[i].path && l[j].path == srt[j].path);
        assert(!path_less(srt[j].path, srt[i].path));
        lemma_components_less_total(path_components(srt[i].path), path_components(srt[j].path));
    }
}

/// The records of the markdown files are unnumbered.
proof fn lemma_md_file_records_unnumbered(files: Seq<MdFile>)
    ensures
        forall|i: int| 0 <= i < md_file_records(files).len() ==> #[trigger] md_file_records(files)[i].index == 0,
    decreases files.len(),
{
    if files.len() > 0 {
        lemma_md_file_records_unnumbered(files.drop_last());
    }
}


// ---------------------------------------------------------------------------
// Laws of sections
// ---------------------------------------------------------------------------

/// Line `i` of `ls` opens a section.
#[verifier::opaque]
pub open spec fn header_at(ls: Seq<Seq<char>>, i: int) -> bool {
    is_section_header(ls[i])
}

/// The sections from line `p` on tile the rest of the file from their first
/// header: each starts at a header line, each ends where the next starts, the
/// last ends at the end of the file, and no header line comes before the first.
#[verifier::opaque]
pub open spec fn tiles(secs: Seq<RecordView>, ls: Seq<Seq<char>>, p: int) -> bool {
    &&& forall|k: int| 0 <= k < secs.len() ==> ((#[trigger] secs[k]).start_line matches Some(s)
        && 0 <= p <= s < ls.len() && header_at(ls, s))
    &&& forall|k: int, m: int| 0 <= k && m == k + 1 && m < secs.len() ==> (#[trigger] secs[k]).end_line == (#[trigger] secs[m]).start_line
    &&& secs.len() > 0 ==> secs.last().end_line == Some(ls.len() as int)
    &&& secs.len() == 0 ==> forall|i: int| p <= i < ls.len() ==> !#[trigger] header_at(ls, i)
    &&& secs.len() > 0 ==> (secs[0].start_line matches Some(q) && forall|i: int|
        p <= i < q ==> !#[trigger] header_at(ls, i))
}

/// One step of reading sections at a header line.
proof fn lemma_sections_unfold(ls: Seq<Seq<char>>, p: int, index: int, path: Seq<char>, rt: RecordType) -> (r: (
    SectionFields,
    int,
))
    requires
        0 <= p < ls.len(),
        is_section_header(ls[p]),
    ensures
        p + 1 <= r.1 <= ls.len(),
        r.1 == ls.len() || is_section_header(ls[r.1]),
        sections_from(ls, p, index, path, rt) == seq![section_record(path, rt, index, p, r.1, section_title(ls[p]), r.0)]
            + sections_from(ls, r.1, index + 1, path, rt),
{
    lemma_section_body_pos(ls, p + 1, no_fields());
    section_body(ls, p + 1, no_fields())
}

proof fn lemma_tile_header(ls: Seq<Seq<char>>, p: int, e: int, head: RecordView, rest: Seq<RecordView>)
    requires
        0 <= p < ls.len(),
        p + 1 <= e <= ls.len(),
        e == ls.len() || header_at(ls, e),
        header_at(ls, p),
        head.start_line == Some(p),
        head.end_line == Some(e),
        tiles(rest, ls, e),
    ensures
        tiles(seq![head] + rest, ls, p),
{
    reveal(tiles);
    let secs = seq![head] + rest;
    if rest.len() > 0 {
        let q = rest[0].start_line->0;
        if q > e {
            assert(!header_at(ls, e));
        }
        assert(q == e);
    } else {
        if e < ls.len() {
            assert(!header_at(ls, e));
        }
    }
    assert forall|k: int, m: int| 0 <= k && m == k + 1 && m < secs.len() implies (#[trigger] secs[k]).end_line == (#[trigger] secs[m]).start_line by {
        if k > 0 {
            assert(secs[k] == rest[k - 1]);
            assert(secs[m] == rest[m - 1]);
        } else {
            assert(secs[m] == rest[0]);
        }
    }
    assert forall|k: int| 0 <= k < secs.len() implies ((#[trigger] secs[k]).start_line matches Some(s)
        && 0 <= p <= s < ls.len() && header_at(ls, s)) by {
        if k > 0 {
            assert(secs[k] == rest[k - 1]);
        }
    }
    if rest.len() > 0 {
        assert(secs.last() == rest.last());
    }
}

proof fn lemma_tile_skip(ls: Seq<Seq<char>>, p: int, secs: Seq<RecordView>)
    requires
        0 <= p < ls.len(),
        !header_at(ls, p),
        tiles(secs, ls, p + 1),
    ensures
        tiles(secs, ls, p),
{
    reveal(tiles);
}

proof fn lemma_sections_tile(ls: Seq<Seq<char>>, p: int, index: int, path: Seq<char>, rt: RecordType)
    requires
        0 <= p <= ls.len(),
    ensures
        tiles(sections_from(ls, p, index, path, rt), ls, p),
    decreases ls.len() - p,
{
    if p < ls.len() {
        if is_section_header(ls[p]) {
            let (f, e) = lemma_sections_unfold(ls, p, index, path, rt);
            reveal(header_at);
            lemma_sections_tile(ls, e, index + 1, path, rt);
            let head = section_record(path, rt, index, p, e, section_title(ls[p]), f);
            lemma_tile_header(ls, p, e, head, sections_from(ls, e, index + 1, path, rt));
        } else {
            reveal(header_at);
            lemma_sections_tile(ls, p + 1, index, path, rt);
            lemma_tile_skip(ls, p, sections_from(ls, p + 1, index, path, rt));
        }
    } else {
        reveal(tiles);
    }
}

/// The sections of a file tile it from its first header on: each starts at
/// a `# ` header line, ends where the next starts (the last at the end of the
/// file), and the lines before the first hold no header; they are numbered
/// from zero in order.
pub proof fn law_sections_tile(content: Seq<char>, path: Seq<char>, rt: RecordType)
    ensures
        tiles(sections_of(content, path, rt), lines(content), 0),
        well_placed(sections_of(content, path, rt), 0, lines(content).len() as int, 0),
{
    lemma_sections_tile(lines(content), 0, 0, path, rt);
    lemma_sections_placed(lines(content), 0, 0, path, rt);
}

// ---------------------------------------------------------------------------
// The count and the sections
// ---------------------------------------------------------------------------

/// Every line from `p` on that is counted as a header is where one of the
/// sections read from `p` on starts.
pub open spec fn headers_open_sections(ls: Seq<Seq<char>>, p: int, index: int, path: Seq<char>, rt: RecordType) -> bool {
    forall|i: int|
        p <= i < ls.len() && counted(#[trigger] ls[i]) ==> exists|k: int|
            0 <= k < sections_from(ls, p, index, path, rt).len() && sections_from(ls, p, index, path, rt)[k].start_line
                == Some(i)
}

/// Lines none of which is counted count nothing.
proof fn lemma_count_zero(ls: Seq<Seq<char>>)
    requires
        forall|i: int| 0 <= i < ls.len() ==> !counted(#[trigger] ls[i]),
    ensures
        header_count(ls) == 0,
    decreases ls.len(),
{
    if ls.len() > 0 {
        let dl = ls.drop_last();
        assert forall|i: int| 0 <= i < dl.len() implies !counted(#[trigger] dl[i]) by {
            assert(dl[i] == ls[i]);
        }
        lemma_count_zero(dl);
        assert(!counted(ls[ls.len() - 1]));
    }
}

/// One line counts one when it is counted as a header.
proof fn lemma_count_one(x: Seq<char>)
    ensures
        header_count(seq![x]) == if counted(x) { 1nat } else { 0nat },
{
    assert(seq![x].drop_last() =~= Seq::<Seq<char>>::empty());
    assert(header_count(Seq::<Seq<char>>::empty()) == 0);
    assert(seq![x].last() == x);
    assert(header_count(seq![x]) == header_count(seq![x].drop_last()) + if counted(x) { 1nat } else { 0nat });
}

/// Where every counted line from `p` on opens a section, the sections read
/// from `p` on are as many as the counted lines.
proof fn lemma_count_sections_from(ls: Seq<Seq<char>>, p: int, index: int, path: Seq<char>, rt: RecordType)
    requires
        0 <= p <= ls.len(),
        headers_open_sections(ls, p, index, path, rt),
    ensures
        sections_from(ls, p, index, path, rt).len() == header_count(ls.skip(p)),
    decreases ls.len() - p,
{
    let all = sections_from(ls, p, index, path, rt);
    if p == ls.len() {
        assert(ls.skip(p) =~= Seq::<Seq<char>>::empty());
    } else if is_section_header(ls[p]) {
        lemma_section_body_pos(ls, p + 1, no_fields());
        let (f, e) = section_body(ls, p + 1, no_fields());
        let rest = sections_from(ls, e, index + 1, path, rt);
        assert(all == seq![section_record(path, rt, index, p, e, section_title(ls[p]), f)] + rest);
        lemma_sections_placed(ls, e, index + 1, path, rt);
        crate::text::lemma_trim_starts(ls[p], "# "@);
        assert(counted(ls[p]));
        let mid = ls.subrange(p + 1, e);
        assert forall|i: int| 0 <= i < mid.len() implies !counted(#[trigger] mid[i]) by {
            assert(mid[i] == ls[p + 1 + i]);
            if counted(ls[p + 1 + i]) {
                let k = choose|k: int| 0 <= k < all.len() && all[k].start_line == Some(p + 1 + i);
                if k > 0 {
                    assert(all[k] == rest[k - 1]);
                }
            }
        }
        lemma_count_zero(mid);
        assert forall|i: int| e <= i < ls.len() && counted(#[trigger] ls[i]) implies exists|k: int|
            0 <= k < rest.len() && rest[k].start_line == Some(i) by {
            let k = choose|k: int| 0 <= k < all.len() && all[k].start_line == Some(i);
            assert(k > 0);
            assert(all[k] == rest[k - 1]);
        }
        lemma_count_sections_from(ls, e, index + 1, path, rt);
        assert(ls.skip(p) =~= seq![ls[p]] + mid + ls.skip(e));
        lemma_header_count_append(seq![ls[p]] + mid, ls.skip(e));
        lemma_header_count_append(seq![ls[p]], mid);
        lemma_count_one(ls[p]);
    } else {
        assert(all == sections_from(ls, p + 1, index, path, rt));
        lemma_sections_placed(ls, p + 1, index, path, rt);
        if counted(ls[p]) {
            let k = choose|k: int| 0 <= k < all.len() && all[k].start_line == Some(p);
        }
        assert forall|i: int| p + 1 <= i < ls.len() && counted(#[trigger] ls[i]) implies exists|k: int|
            0 <= k < all.len() && all[k].start_line == Some(i) by {}
        lemma_count_sections_from(ls, p + 1, index, path, rt);
        assert(ls.skip(p) =~= seq![ls[p]] + ls.skip(p + 1));
        lemma_header_count_append(seq![ls[p]], ls.skip(p + 1));
        lemma_count_one(ls[p]);
    }
}

/// The count the listing shows for a file is its number of sections whenever
/// its headers are well placed: every line counted as a header (`# ` once
/// leading whitespace is dropped) is where a section starts, so no such line
/// sits inside a code block and none is `#` followed by whitespace alone.
pub proof fn law_count_is_sections(content: Seq<char>, path: Seq<char>, rt: RecordType)
    requires
        forall|i: int|
            0 <= i < lines(content).len() && counted(#[trigger] lines(content)[i]) ==> exists|k: int|
                0 <= k < sections_of(content, path, rt).len() && sections_of(content, path, rt)[k].start_line == Some(i),
    ensures
        header_count(lines(content)) == sections_of(content, path, rt).len(),
{
    let ls = lines(content);
    lemma_count_sections_from(ls, 0, 0, path, rt);
    assert(ls.skip(0) =~= ls);
}

// ---------------------------------------------------------------------------
// Tag lines
// ---------------------------------------------------------------------------

/// Splitting from a piece already holding `cur` puts `cur` before the first piece.
proof fn lemma_split_cur(s: Seq<char>, sep: char, cur: Seq<char>)
    ensures
        split_from(s, sep, cur) == split_from(s, sep, seq![]).update(0, cur + split_from(s, sep, seq![])[0]),
    decreases s.len(),
{
    if s.len() == 0 {
        assert(cur + Seq::<char>::empty() =~= cur);
        assert(split_from(s, sep, cur) =~= seq![Seq::<char>::empty()].update(0, cur));
    } else if s[0] == sep {
        let rest = split_from(s.drop_first(), sep, seq![]);
        assert(cur + Seq::<char>::empty() =~= cur);
        assert(seq![cur] + rest =~= (seq![Seq::<char>::empty()] + rest).update(0, cur));
    } else {
        let r = s.drop_first();
        lemma_split_cur(r, sep, cur.push(s[0]));
        lemma_split_cur(r, sep, seq![s[0]]);
        let base = split_from(r, sep, seq![]);
        lemma_split_nonempty(r, sep, seq![]);
        assert(Seq::<char>::empty().push(s[0]) =~= seq![s[0]]);
        assert(cur.push(s[0]) + base[0] =~= cur + (seq![s[0]] + base[0]));
        assert(split_from(s, sep, cur) =~= split_from(s, sep, seq![]).update(0, cur + split_from(s, sep, seq![])[0]));
    }
}

proof fn lemma_split_nonempty(s: Seq<char>, sep: char, cur: Seq<char>)
    ensures
        split_from(s, sep, cur).len() >= 1,
    decreases s.len(),
{
    if s.len() > 0 {
        if s[0] == sep {
            lemma_split_nonempty(s.drop_first(), sep, seq![]);
        } else {
            lemma_split_nonempty(s.drop_first(), sep, cur.push(s[0]));
        }
    }
}

/// A character after the text, other than the separator, ends the last piece.
proof fn lemma_split_push(s: Seq<char>, sep: char, cur: Seq<char>, c: char)
    requires
        c != sep,
    ensures
        split_from(s.push(c), sep, cur) == split_from(s, sep, cur).update(
            split_from(s, sep, cur).len() - 1,
            split_from(s, sep, cur).last().push(c),
        ),
    decreases s.len(),
{
    lemma_split_nonempty(s, sep, cur);
    let t = s.push(c);
    if s.len() == 0 {
        assert(t[0] == c);
        assert(t.drop_first() =~= Seq::<char>::empty());
        assert(split_from(t, sep, cur) == split_from(t.drop_first(), sep, cur.push(c)));
        assert(split_from(t, sep, cur) =~= seq![cur].update(0, cur.push(c)));
    } else {
        assert(t[0] == s[0]);
        assert(t.drop_first() =~= s.drop_first().push(c));
        if s[0] == sep {
            lemma_split_push(s.drop_first(), sep, seq![], c);
            lemma_split_nonempty(s.drop_first(), sep, seq![]);
            let rest = split_from(s.drop_first(), sep, seq![]);
            assert(split_from(t, sep, cur) == seq![cur] + split_from(s.drop_first().push(c), sep, seq![]));
            assert(seq![cur] + rest.update(rest.len() - 1, rest.last().push(c)) =~= (seq![cur] + rest).update(
                rest.len() as int,
                (seq![cur] + rest).last().push(c),
            ));
        } else {
            lemma_split_push(s.drop_first(), sep, cur.push(s[0]), c);
        }
    }
}

/// Whitespace before a text is trimmed away with it.
proof fn lemma_trim_prepend_ws(c: char, x: Seq<char>)
    requires
        is_ws(c),
    ensures
        trim(seq![c] + x) == trim(x),
{
    assert((seq![c] + x)[0] == c);
    assert((seq![c] + x).drop_first() =~= x);
}

/// Two lists of pieces that differ only where their trims agree give the same tags.
proof fn lemma_trims_equal(a: Seq<Seq<char>>, b: Seq<Seq<char>>)
    requires
        a.len() == b.len(),
        forall|i: int| 0 <= i < a.len() ==> trim(#[trigger] a[i]) == trim(b[i]),
    ensures
        a.map_values(|t: Seq<char>| trim(t)) == b.map_values(|t: Seq<char>| trim(t)),
{
    assert(a.map_values(|t: Seq<char>| trim(t)) =~= b.map_values(|t: Seq<char>| trim(t)));
}

proof fn lemma_tag_list_trim_start(g: Seq<char>)
    ensures
        tag_list(trim_start(g)) == tag_list(g),
    decreases g.len(),
{
    if g.len() > 0 && is_ws(g[0]) {
        lemma_tag_list_trim_start(g.drop_first());
        assert(g[0] != ',');
        let r = g.drop_first();
        assert(split_from(g, ',', seq![]) == split_from(r, ',', Seq::<char>::empty().push(g[0])));
        assert(Seq::<char>::empty().push(g[0]) =~= seq![g[0]]);
        lemma_split_cur(r, ',', seq![g[0]]);
        lemma_split_nonempty(r, ',', seq![]);
        let base = split_from(r, ',', seq![]);
        let a = split_from(g, ',', seq![]);
        assert forall|i: int| 0 <= i < a.len() implies trim(#[trigger] a[i]) == trim(base[i]) by {
            if i == 0 {
                lemma_trim_prepend_ws(g[0], base[0]);
            }
        }
        lemma_trims_equal(a, base);
    }
}

proof fn lemma_tag_list_trim_end(g: Seq<char>)
    ensures
        tag_list(trim_end(g)) == tag_list(g),
    decreases g.len(),
{
    if g.len() > 0 && is_ws(g.last()) {
        let d = g.drop_last();
        lemma_tag_list_trim_end(d);
        assert(g.last() != ',');
        assert(d.push(g.last()) =~= g);
        lemma_split_push(d, ',', seq![], g.last());
        lemma_split_nonempty(d, ',', seq![]);
        let base = split_from(d, ',', seq![]);
        let a = split_from(g, ',', seq![]);
        assert forall|i: int| 0 <= i < a.len() implies trim(#[trigger] a[i]) == trim(base[i]) by {
            if i == base.len() - 1 {
                crate::text::lemma_trim_append_ws(base.last(), g.last());
                assert(base.last().push(g.last()) =~= base.last() + seq![g.last()]);
            }
        }
        lemma_trims_equal(a, base);
    }
}

/// The tags of a tag line do not change when the line is trimmed.
pub proof fn lemma_tag_list_trim(g: Seq<char>)
    ensures
        tag_list(trim(g)) == tag_list(g),
{
    lemma_tag_list_trim_end(trim_start(g));
    lemma_tag_list_trim_start(g);
}

// ---------------------------------------------------------------------------
// Laws of showing sections and files
// ---------------------------------------------------------------------------

/// A section is shown as an entry that opens with its title (`{none}` when
/// absent) on the header line and then its message block: the recorded
/// message when there is one, `{none}` only when there is none.
pub proof fn law_section_shows_its_message(r: RecordView)
    ensures
        ({
            let t = match r.title {
                Some(x) => x,
                None => "{none}"@,
            };
            let m = match r.message {
                Some(x) => x,
                None => "{none}"@,
            };
            let head = "# "@ + t + "\n\n## Message\n"@ + m + "\n\n## Command\n"@;
            &&& head.len() <= spec_render_section(r).len()
            &&& spec_render_section(r).subrange(0, head.len() as int) == head
        }),
{
    reveal_strlit("\n\n## Command\n");
    reveal_strlit("\n\n## Command\n```bash ");
    let t = or_none(r.title);
    let m = or_none(r.message);
    let head = "# "@ + t + "\n\n## Message\n"@ + m + "\n\n## Command\n"@;
    let text = spec_render_section(r);
    let p = "# "@ + t + "\n\n## Message\n"@ + m;
    let tail = "\n\n## Command\n```bash "@ + crate::feature::record::md::shown(r.mode) + "\n"@
        + crate::feature::record::md::shown(r.command) + "\n```\n\n## Result\n```\n"@ + or_none(r.result)
        + "\n```\n\n## Tag\n"@ + join_words(r.tags, ","@);
    assert(text =~= p + tail);
    assert("\n\n## Command\n```bash "@.subrange(0, 13) =~= "\n\n## Command\n"@);
    assert(head =~= p + "\n\n## Command\n"@);
    assert(text.subrange(0, head.len() as int) =~= head);
}

/// Showing a file with a records directory points the first image link
/// `](./images/`, wherever it stands, at the directory's `images` and goes on
/// after it; a text without such a link is shown as it is.
pub proof fn law_image_links_converted(content: Seq<char>, d: Seq<char>, k: int)
    ensures
        (forall|j: int| !crate::text::occurs_at(content, "](./images/"@, j)) ==> converted_image_paths(
            content,
            Some(d),
        ) == content,
        (crate::text::occurs_at(content, "](./images/"@, k) && forall|j: int|
            0 <= j < k ==> !crate::text::occurs_at(content, "](./images/"@, j)) ==> converted_image_paths(
            content,
            Some(d),
        ) == content.take(k) + "]("@ + join(d, "images"@) + "/"@ + converted_image_paths(content.skip(k + 11), Some(d)),
{
    reveal_strlit("](./images/");
    let from = "](./images/"@;
    let to = "]("@ + join(d, "images"@) + "/"@;
    if forall|j: int| !crate::text::occurs_at(content, from, j) {
        crate::text::law_replace_without_occurrence(content, from, to);
    }
    if crate::text::occurs_at(content, from, k) && forall|j: int| 0 <= j < k ==> !crate::text::occurs_at(content, from, j) {
        crate::text::law_replace_first_occurrence(content, from, to, k);
    }
}

} // verus!
