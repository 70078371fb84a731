//! The markdown entry written for each recorded command.
use vstd::prelude::*;

use crate::context::Context;
use crate::error::{OrsError, OrsErrorView};
use crate::paths::{join, join_path};
use crate::feature::search::executor::common::{
    counted, header_count, lemma_header_count_append, apply_tags, code_block, code_scan, ends_plain_block, fence_mode, is_fence, is_section_header,
    lemma_code_scan_over, lemma_plain_scan_over, no_fields, open_fence, plain_block, plain_scan, section_body,
    section_record, section_title, sections_from, sections_of, tag_list, RecordView, SectionFields,
};
use crate::feature::record::executor::{track_name_of, ExecutorView};
use crate::feature::search::executor::flag::run::run_plan;
use crate::ors_type::{RecordType, UnitType};
use crate::text::{
    extend, from_chars, is_ws, lemma_split_pieces, lemma_trim_end_prefix, lemma_trim_fixed, lemma_trim_newlines,
    lemma_unlines_append, lemma_unlines_split, lemma_words_single,
    lines, plain_line, split_char, starts_with, strip_cr, to_chars, trim, trim_end, trim_start, trim_start_matches, unlines, words,
};

verus! {

/// The text of one record entry: a section headed by its title, with message,
/// command (in a code block naming its mode), result and tags.
pub const RECORD_TEMPLATE: &'static str = "# {{ title }}\n\n## Message\n{{ message }}\n\n## Command\n```bash {{ mode }}\n{{ command }}\n```\n\n## Result\n```\n{{ result }}\n```\n\n## Tag\n{{ tag }}\n";

#[verifier::external_type_specification]
#[verifier::external_body]
pub struct ExTemplateError(minijinja::Error);

/// How a template shows an optional value: the text itself, or `None`
/// when it is absent.
pub open spec fn shown(o: Option<Seq<char>>) -> Seq<char> {
    match o {
        Some(s) => s,
        None => "None"@,
    }
}

/// The text of the record template with its placeholders filled in, each
/// value put in as it is. The template's final line ending is not part of it.
pub open spec fn record_text(
    title: Seq<char>,
    message: Seq<char>,
    command: Option<Seq<char>>,
    mode: Option<Seq<char>>,
    result: Seq<char>,
    tag: Seq<char>,
) -> Seq<char> {
    "# "@ + title + "\n\n## Message\n"@ + message + "\n\n## Command\n```bash "@ + shown(mode) + "\n"@
        + shown(command) + "\n```\n\n## Result\n```\n"@ + result + "\n```\n\n## Tag\n"@ + tag
}

/// Renders the record template with the record variables
/// (`minijinja::Environment::render_str`, the context built with
/// `minijinja::Value::from_iter` and `minijinja::Value::from`).
/// Trusted: for the record template the rendering succeeds and gives
/// `record_text` of the values. The template holds only text and `{{ name }}`
/// placeholders; the environment's defaults print a string as it is (no
/// escaping for a template named `<string>`), print an absent value as `None`,
/// and drop one final newline of the template.
#[verifier::external_body]
pub(crate) fn render_record(
    template: &str,
    title: &str,
    message: &str,
    command: Option<&str>,
    mode: Option<&str>,
    result: &str,
    tag: &str,
) -> (r: Result<String, minijinja::Error>)
    requires
        template@ == RECORD_TEMPLATE@,
    ensures
        match r {
            Ok(s) => s@ == record_text(title@, message@, str_opt(command), str_opt(mode), result@, tag@),
            Err(_) => false,
        },
{
    let ctx = minijinja::Value::from_iter([
        ("title", minijinja::Value::from(title)),
        ("message", minijinja::Value::from(message)),
        ("command", minijinja::Value::from(command)),
        ("mode", minijinja::Value::from(mode)),
        ("result", minijinja::Value::from(result)),
        ("tag", minijinja::Value::from(tag)),
    ]);
    minijinja::Environment::new().render_str(template, ctx)
}

/// The text of an optional string slice.
pub open spec fn str_opt(o: Option<&str>) -> Option<Seq<char>> {
    match o {
        Some(s) => Some(s@),
        None => None,
    }
}

/// One recorded command, as it is written to its file.
pub struct Md {
    pub title: Option<String>,
    pub message: Option<String>,
    pub command: Vec<String>,
    pub mode: String,
    pub result: Option<String>,
    pub tag: Option<String>,
    pub track_name: Option<String>,
}

/// The `{none}` marker for a missing value.
pub open spec fn or_none(o: Option<Seq<char>>) -> Seq<char> {
    match o {
        Some(s) => s,
        None => "{none}"@,
    }
}

/// Words joined with a separator between them.
pub open spec fn join_words(ws: Seq<Seq<char>>, sep: Seq<char>) -> Seq<char>
    decreases ws.len(),
{
    if ws.len() == 0 {
        seq![]
    } else if ws.len() == 1 {
        ws[0]
    } else {
        join_words(ws.drop_last(), sep) + sep + ws.last()
    }
}

/// `ws` joined with `sep` between them.
pub fn join_strings(ws: &Vec<String>, sep: &str) -> (r: String)
    ensures
        r@ == join_words(ws.deep_view(), sep@),
{
    let sc = to_chars(sep);
    let mut out: Vec<char> = Vec::new();
    let mut i: usize = 0;
    assert(ws.deep_view().take(0) =~= Seq::<Seq<char>>::empty());
    while i < ws.len()
        invariant
            i <= ws.len(),
            sc@ == sep@,
            out@ == join_words(ws.deep_view().take(i as int), sep@),
        decreases ws.len() - i,
    {
        let ghost t = ws.deep_view().take(i + 1);
        assert(t.drop_last() =~= ws.deep_view().take(i as int));
        assert(t.last() == ws@[i as int]@);
        if i > 0 {
            extend(&mut out, &sc);
        } else {
            assert(t =~= seq![ws@[0]@]);
        }
        extend(&mut out, &to_chars(ws[i].as_str()));
        i = i + 1;
    }
    assert(ws.deep_view().take(ws.len() as int) =~= ws.deep_view());
    from_chars(&out)
}

impl Md {
    /// A record of `command`, run in `mode`, with what it printed (`result`).
    pub fn new(
        title: Option<String>,
        message: Option<String>,
        command: Vec<String>,
        mode: String,
        result: Option<String>,
        tag: Option<String>,
        track_name: Option<String>,
    ) -> (md: Md)
        ensures
            md.title == title,
            md.message == message,
            md.command == command,
            md.mode == mode,
            md.result == result,
            md.tag == tag,
            md.track_name == track_name,
    {
        Md { title, message, command, mode, result, tag, track_name }
    }

    /// The file the record is appended to: the current track's file when a
    /// track is set, else the file named after the command's program.
    pub open spec fn spec_file_path(&self, ctx: &Context) -> Result<Seq<char>, OrsErrorView> {
        match self.track_name {
            Some(tn) => Ok(join(ctx.tracks_dir@, tn@ + ".md"@)),
            None => if self.command@.len() == 0 {
                Err(OrsErrorView::CommandEmpty)
            } else {
                Ok(join(ctx.commands_dir@, self.command@[0]@ + ".md"@))
            },
        }
    }

    /// The text of the record's entry: missing title, message, result and
    /// tag shown as `{none}`, the command's words joined with spaces.
    pub open spec fn spec_render(&self) -> Seq<char> {
        record_text(
            or_none(self.title.deep_view()),
            or_none(self.message.deep_view()),
            Some(join_words(self.command.deep_view(), " "@)),
            Some(self.mode@),
            or_none(self.result.deep_view()),
            or_none(self.tag.deep_view()),
        )
    }

    /// The file the record is appended to and the entry appended: the path is
    /// decided first (failing for an empty command), then the entry rendered.
    pub open spec fn spec_entry(&self, ctx: &Context) -> Result<(Seq<char>, Seq<char>), OrsErrorView> {
        match self.spec_file_path(ctx) {
            Err(e) => Err(e),
            Ok(p) => Ok((p, self.spec_render())),
        }
    }

    /// The file the record is appended to, and the entry appended.
    pub fn entry(&self, ctx: &Context) -> (r: Result<(String, String), OrsError>)
        ensures
            match r {
                Ok((p, t)) => self.spec_entry(ctx) == Ok::<(Seq<char>, Seq<char>), OrsErrorView>((p@, t@)),
                Err(e) => self.spec_entry(ctx) == Err::<(Seq<char>, Seq<char>), OrsErrorView>(e.deep_view()),
            },
    {
        let path = match &self.track_name {
            Some(tn) => {
                let mut name = to_chars(tn.as_str());
                extend(&mut name, &to_chars(".md"));
                join_path(ctx.tracks_dir.as_str(), from_chars(&name).as_str())
            },
            None => {
                if self.command.len() == 0 {
                    return Err(OrsError::CommandEmpty);
                }
                let mut name = to_chars(self.command[0].as_str());
                extend(&mut name, &to_chars(".md"));
                join_path(ctx.commands_dir.as_str(), from_chars(&name).as_str())
            },
        };
        let title = match &self.title {
            Some(t) => t.clone(),
            None => "{none}".to_owned(),
        };
        let message = match &self.message {
            Some(t) => t.clone(),
            None => "{none}".to_owned(),
        };
        let result = match &self.result {
            Some(t) => t.clone(),
            None => "{none}".to_owned(),
        };
        let tag = match &self.tag {
            Some(t) => t.clone(),
            None => "{none}".to_owned(),
        };
        let command = join_strings(&self.command, " ");
        match render_record(
            RECORD_TEMPLATE,
            title.as_str(),
            message.as_str(),
            Some(command.as_str()),
            Some(self.mode.as_str()),
            result.as_str(),
            tag.as_str(),
        ) {
            Ok(text) => Ok((path, text)),
            Err(_) => Err(OrsError::Render),
        }
    }
}


// ---------------------------------------------------------------------------
// Reading an entry back
// ---------------------------------------------------------------------------

/// The lines of a value: its text split at each newline.
pub open spec fn value_lines(v: Seq<char>) -> Seq<Seq<char>> {
    split_char(v, '\n')
}

/// The lines of a record entry: the header line, then each block's heading
/// and the lines of its value.
pub open spec fn entry_lines(
    title: Seq<char>,
    message: Seq<char>,
    command: Seq<char>,
    mode: Seq<char>,
    result: Seq<char>,
    tag: Seq<char>,
) -> Seq<Seq<char>> {
    seq!["# "@ + title, seq![], "## Message"@] + value_lines(message) + seq![seq![], "## Command"@, "```bash "@ + mode]
        + value_lines(command) + seq!["```"@, seq![], "## Result"@, "```"@] + value_lines(result) + seq![
        "```"@,
        seq![],
        "## Tag"@,
    ] + value_lines(tag)
}

/// An entry's text, with the line ending written after it, is its lines.
#[verifier::spinoff_prover]
#[verifier::rlimit(60)]
pub proof fn lemma_entry_layout(
    title: Seq<char>,
    message: Seq<char>,
    command: Seq<char>,
    mode: Seq<char>,
    result: Seq<char>,
    tag: Seq<char>,
)
    ensures
        record_text(title, message, Some(command), Some(mode), result, tag) + "\n"@ == unlines(
            entry_lines(title, message, command, mode, result, tag),
        ),
{
    reveal_strlit("# ");
    reveal_strlit("## Message");
    reveal_strlit("## Command");
    reveal_strlit("```bash ");
    reveal_strlit("```");
    reveal_strlit("## Result");
    reveal_strlit("## Tag");
    reveal_strlit("\n");
    reveal_strlit("\n\n## Message\n");
    reveal_strlit("\n\n## Command\n```bash ");
    reveal_strlit("\n```\n\n## Result\n```\n");
    reveal_strlit("\n```\n\n## Tag\n");
    reveal_strlit("\n## Command\n```bash ");
    reveal_strlit("```\n\n## Result\n```\n");
    reveal_strlit("```\n\n## Tag\n");
    let a = seq!["# "@ + title, seq![], "## Message"@];
    let b = seq![seq![], "## Command"@, "```bash "@ + mode];
    let c = seq!["```"@, seq![], "## Result"@, "```"@];
    let d = seq!["```"@, seq![], "## Tag"@];
    let vm = value_lines(message);
    let vc = value_lines(command);
    let vr = value_lines(result);
    let vg = value_lines(tag);
    lemma_unlines_split(message, seq![]);
    lemma_unlines_split(command, seq![]);
    lemma_unlines_split(result, seq![]);
    lemma_unlines_split(tag, seq![]);
    assert(Seq::<char>::empty() + message =~= message);
    assert(Seq::<char>::empty() + command =~= command);
    assert(Seq::<char>::empty() + result =~= result);
    assert(Seq::<char>::empty() + tag =~= tag);
    assert(unlines(a) =~= "# "@ + title + "\n\n## Message\n"@) by {
        reveal_with_fuel(unlines, 4);
    }
    assert(unlines(b) =~= "\n## Command\n```bash "@ + mode + "\n"@) by {
        reveal_with_fuel(unlines, 4);
    }
    assert(unlines(c) =~= "```\n\n## Result\n```\n"@) by {
        reveal_with_fuel(unlines, 5);
    }
    assert(unlines(d) =~= "```\n\n## Tag\n"@) by {
        reveal_with_fuel(unlines, 4);
    }
    lemma_unlines_append(a, vm);
    lemma_unlines_append(a + vm, b);
    lemma_unlines_append(a + vm + b, vc);
    lemma_unlines_append(a + vm + b + vc, c);
    lemma_unlines_append(a + vm + b + vc + c, vr);
    lemma_unlines_append(a + vm + b + vc + c + vr, d);
    lemma_unlines_append(a + vm + b + vc + c + vr + d, vg);
    assert(entry_lines(title, message, command, mode, result, tag) == a + vm + b + vc + c + vr + d + vg);
    let s1 = "# "@ + title + "\n\n## Message\n"@;
    let s2 = s1 + message;
    let s3 = s2 + "\n\n## Command\n```bash "@ + mode + "\n"@;
    let s4 = s3 + command;
    let s5 = s4 + "\n```\n\n## Result\n```\n"@;
    let s6 = s5 + result;
    let s7 = s6 + "\n```\n\n## Tag\n"@;
    let s8 = s7 + tag;
    assert(record_text(title, message, Some(command), Some(mode), result, tag) == s8);
    let t1 = unlines(a) + unlines(vm);
    assert(t1 =~= s2 + "\n"@);
    let t2 = t1 + unlines(b);
    assert("\n"@ + "\n## Command\n```bash "@ =~= "\n\n## Command\n```bash "@);
    assert(t2 =~= s3);
    let t3 = t2 + unlines(vc);
    assert(t3 =~= s4 + "\n"@);
    let t4 = t3 + unlines(c);
    assert("\n"@ + "```\n\n## Result\n```\n"@ =~= "\n```\n\n## Result\n```\n"@);
    assert(t4 =~= s5);
    let t5 = t4 + unlines(vr);
    assert(t5 =~= s6 + "\n"@);
    let t6 = t5 + unlines(d);
    assert("\n"@ + "```\n\n## Tag\n"@ =~= "\n```\n\n## Tag\n"@);
    assert(t6 =~= s7);
    let t7 = t6 + unlines(vg);
    assert(t7 =~= s8 + "\n"@);
}


/// A mode that the fence line gives back: one word.
pub open spec fn mode_word(m: Seq<char>) -> bool {
    m.len() > 0 && forall|i: int| 0 <= i < m.len() ==> !is_ws(#[trigger] m[i])
}

/// The lines of a file as they are read: each without a carriage return at
/// its end.
pub open spec fn read_lines(ls: Seq<Seq<char>>) -> Seq<Seq<char>> {
    ls.map_values(|l: Seq<char>| strip_cr(l))
}

/// A title that the header line gives back: on one line, not blank, and not
/// opening with the header marker once its trailing whitespace is dropped.
pub open spec fn header_title(t: Seq<char>) -> bool {
    &&& !t.contains('\n')
    &&& trim(t).len() > 0
    &&& !starts_with(trim_end(t), "# "@)
}

/// A value whose lines, in a plain block, open no heading.
pub open spec fn plain_lines_ok(v: Seq<char>) -> bool {
    forall|i: int| 0 <= i < value_lines(v).len() ==> !ends_plain_block(#[trigger] value_lines(v)[i])
}

/// A value whose lines, in a code block, are no fences.
pub open spec fn code_lines_ok(v: Seq<char>) -> bool {
    forall|i: int| 0 <= i < value_lines(v).len() ==> !is_fence(#[trigger] value_lines(v)[i])
}

/// What a plain block gives back of a value: each line trimmed, then the
/// whole trimmed.
pub open spec fn plain_value(v: Seq<char>) -> Seq<char> {
    trim(unlines(value_lines(v).map_values(|l: Seq<char>| trim(l))))
}

/// What a code block gives back of a value: each line without a carriage
/// return at its end, then the whole trimmed.
pub open spec fn code_value(v: Seq<char>) -> Seq<char> {
    trim(unlines(read_lines(value_lines(v))))
}

/// A value read from a plain block: nothing when it is blank or the `{none}`
/// marker.
pub open spec fn marker_value(v: Seq<char>) -> Option<Seq<char>> {
    if v.len() == 0 || v == "{none}"@ {
        None
    } else {
        Some(v)
    }
}

/// A value read from a code block: nothing when it is blank.
pub open spec fn nonblank(v: Seq<char>) -> Option<Seq<char>> {
    if v.len() == 0 {
        None
    } else {
        Some(v)
    }
}

/// The fixed lines of an entry, as the section reader sees them.
proof fn lemma_marker_lines()
    ensures
        trim(Seq::<char>::empty()) == Seq::<char>::empty(),
        !is_section_header(Seq::<char>::empty()),
        !ends_plain_block(Seq::<char>::empty()),
        !is_fence(Seq::<char>::empty()),
        plain_line(Seq::<char>::empty()),
        trim("## Message"@) == "## Message"@,
        trim("## Command"@) == "## Command"@,
        trim("## Result"@) == "## Result"@,
        trim("## Tag"@) == "## Tag"@,
        !is_section_header("## Message"@),
        !is_section_header("## Command"@),
        !is_section_header("## Result"@),
        !is_section_header("## Tag"@),
        ends_plain_block("## Command"@),
        ends_plain_block("## Tag"@),
        plain_line("## Message"@),
        plain_line("## Command"@),
        plain_line("## Result"@),
        plain_line("## Tag"@),
        plain_line("```"@),
        is_fence("```"@),
        !is_section_header("```"@),
        "## Message"@ != "## Command"@,
        "## Message"@ != "## Result"@,
        "## Message"@ != "## Tag"@,
        "## Command"@ != "## Result"@,
        "## Command"@ != "## Tag"@,
        "## Result"@ != "## Tag"@,
        "## Message"@ != Seq::<char>::empty(),
        "## Command"@ != Seq::<char>::empty(),
        "## Result"@ != Seq::<char>::empty(),
        "## Tag"@ != Seq::<char>::empty(),
        "## Message"@ != "```"@,
        "## Command"@ != "```"@,
        "## Result"@ != "```"@,
        "## Tag"@ != "```"@,
{
    reveal_strlit("## Message");
    reveal_strlit("## Command");
    reveal_strlit("## Result");
    reveal_strlit("## Tag");
    reveal_strlit("```");
    reveal_strlit("# ");
    reveal_strlit("## ");
    let e = Seq::<char>::empty();
    assert(trim(e) =~= e);
    lemma_trim_fixed("## Message"@);
    lemma_trim_fixed("## Command"@);
    lemma_trim_fixed("## Result"@);
    lemma_trim_fixed("## Tag"@);
    lemma_trim_fixed("```"@);
    assert("## Message"@.subrange(0, 2) != "# "@) by {
        assert("## Message"@.subrange(0, 2)[1] == '#');
    }
    assert("## Command"@.subrange(0, 2) != "# "@) by {
        assert("## Command"@.subrange(0, 2)[1] == '#');
    }
    assert("## Result"@.subrange(0, 2) != "# "@) by {
        assert("## Result"@.subrange(0, 2)[1] == '#');
    }
    assert("## Tag"@.subrange(0, 2) != "# "@) by {
        assert("## Tag"@.subrange(0, 2)[1] == '#');
    }
    assert("```"@.subrange(0, 2) != "# "@) by {
        assert("```"@.subrange(0, 2)[0] == '`');
    }
    assert("## Command"@.subrange(0, 3) =~= "## "@);
    assert("## Tag"@.subrange(0, 3) =~= "## "@);
    assert("```"@.subrange(0, 3) =~= "```"@);
    assert(!"## Message"@.contains('\n')) by {
        if "## Message"@.contains('\n') {
            let j = choose|j: int| 0 <= j < "## Message"@.len() && "## Message"@[j] == '\n';
        }
    }
    assert(!"## Command"@.contains('\n')) by {
        if "## Command"@.contains('\n') {
            let j = choose|j: int| 0 <= j < "## Command"@.len() && "## Command"@[j] == '\n';
        }
    }
    assert(!"## Result"@.contains('\n')) by {
        if "## Result"@.contains('\n') {
            let j = choose|j: int| 0 <= j < "## Result"@.len() && "## Result"@[j] == '\n';
        }
    }
    assert(!"## Tag"@.contains('\n')) by {
        if "## Tag"@.contains('\n') {
            let j = choose|j: int| 0 <= j < "## Tag"@.len() && "## Tag"@[j] == '\n';
        }
    }
    assert(!"```"@.contains('\n')) by {
        if "```"@.contains('\n') {
            let j = choose|j: int| 0 <= j < "```"@.len() && "```"@[j] == '\n';
        }
    }
    assert("## Message"@[3] != "## Command"@[3]);
    assert("## Message"@[3] != "## Result"@[3]);
    assert("## Message"@[3] != "## Tag"@[3]);
    assert("## Command"@[3] != "## Result"@[3]);
    assert("## Command"@[3] != "## Tag"@[3]);
    assert("## Result"@[3] != "## Tag"@[3]);
    assert("## Message"@[0] != "```"@[0]);
    assert("## Command"@[0] != "```"@[0]);
    assert("## Result"@[0] != "```"@[0]);
    assert("## Tag"@[0] != "```"@[0]);
}

/// The mode line of an entry's command block names the mode.
proof fn lemma_mode_fence(mo: Seq<char>)
    requires
        mode_word(mo),
    ensures
        is_fence("```bash "@ + mo),
        !is_section_header("```bash "@ + mo),
        plain_line("```bash "@ + mo),
        fence_mode("```bash "@ + mo) == Some(mo),
{
    reveal_strlit("```bash ");
    reveal_strlit("```");
    reveal_strlit("# ");
    reveal_strlit("bash");
    reveal_strlit("bash ");
    let l = "```bash "@ + mo;
    assert(l[0] == '`');
    assert(l.last() == mo.last());
    lemma_trim_fixed(l);
    assert(l.subrange(0, 3) =~= "```"@);
    assert(l.subrange(0, 2) != "# "@) by {
        assert(l.subrange(0, 2)[0] == '`');
    }
    assert(!l.contains('\n')) by {
        if l.contains('\n') {
            let j = choose|j: int| 0 <= j < l.len() && l[j] == '\n';
            if j >= 8 {
                assert(mo[j - 8] == '\n');
            }
        }
    }
    let rest = "bash "@ + mo;
    assert(l.skip(3) =~= rest);
    assert(!starts_with(rest, "```"@)) by {
        assert(rest.subrange(0, 3)[0] == 'b');
    }
    assert(trim_start_matches(l, "```"@) == trim_start_matches(rest, "```"@));
    assert(trim_start_matches(rest, "```"@) == rest);
    assert(rest[0] == 'b');
    assert(rest.last() == mo.last());
    lemma_trim_fixed(rest);
    assert(rest =~= "bash"@ + seq![' '] + mo);
    crate::text::lemma_words_word_space("bash"@, mo, seq![]);
    assert(Seq::<char>::empty() + "bash"@ =~= "bash"@);
    lemma_words_single(mo, seq![]);
    assert(Seq::<char>::empty() + mo =~= mo);
    assert(words(rest) =~= seq!["bash"@, mo]);
}

/// Where each line of an entry stands.
proof fn lemma_entry_positions(t: Seq<char>, m: Seq<char>, c: Seq<char>, mo: Seq<char>, r: Seq<char>, g: Seq<char>)
    ensures
        ({
            let ls = entry_lines(t, m, c, mo, r, g);
            let nm = value_lines(m).len() as int;
            let nc = value_lines(c).len() as int;
            let nr = value_lines(r).len() as int;
            let ng = value_lines(g).len() as int;
            &&& ls.len() == 13 + nm + nc + nr + ng
            &&& ls[0] == "# "@ + t
            &&& ls[1] == Seq::<char>::empty()
            &&& ls[2] == "## Message"@
            &&& ls.subrange(3, 3 + nm) == value_lines(m)
            &&& ls[3 + nm] == Seq::<char>::empty()
            &&& ls[4 + nm] == "## Command"@
            &&& ls[5 + nm] == "```bash "@ + mo
            &&& ls.subrange(6 + nm, 6 + nm + nc) == value_lines(c)
            &&& ls[6 + nm + nc] == "```"@
            &&& ls[7 + nm + nc] == Seq::<char>::empty()
            &&& ls[8 + nm + nc] == "## Result"@
            &&& ls[9 + nm + nc] == "```"@
            &&& ls.subrange(10 + nm + nc, 10 + nm + nc + nr) == value_lines(r)
            &&& ls[10 + nm + nc + nr] == "```"@
            &&& ls[11 + nm + nc + nr] == Seq::<char>::empty()
            &&& ls[12 + nm + nc + nr] == "## Tag"@
            &&& ls.subrange(13 + nm + nc + nr, 13 + nm + nc + nr + ng) == value_lines(g)
        }),
{
    let ls = entry_lines(t, m, c, mo, r, g);
    let a = seq!["# "@ + t, seq![], "## Message"@];
    let b = seq![seq![], "## Command"@, "```bash "@ + mo];
    let cc = seq!["```"@, seq![], "## Result"@, "```"@];
    let d = seq!["```"@, seq![], "## Tag"@];
    let vm = value_lines(m);
    let vc = value_lines(c);
    let vr = value_lines(r);
    let vg = value_lines(g);
    let nm = vm.len() as int;
    let nc = vc.len() as int;
    let nr = vr.len() as int;
    let ng = vg.len() as int;
    assert(ls == a + vm + b + vc + cc + vr + d + vg);
    assert(ls.subrange(3, 3 + nm) =~= vm);
    assert(ls.subrange(6 + nm, 6 + nm + nc) =~= vc);
    assert(ls.subrange(10 + nm + nc, 10 + nm + nc + nr) =~= vr);
    assert(ls.subrange(13 + nm + nc + nr, 13 + nm + nc + nr + ng) =~= vg);
}

/// A blank line inside a section is passed over.
proof fn lemma_blank_step(ls: Seq<Seq<char>>, p: int, f: SectionFields)
    requires
        0 <= p < ls.len(),
        ls[p] == Seq::<char>::empty(),
    ensures
        section_body(ls, p, f) == section_body(ls, p + 1, f),
{
    lemma_marker_lines();
}

/// Trimming each line of lines read from a file gives what trimming the
/// written lines gives.
proof fn lemma_trim_read_lines(ls: Seq<Seq<char>>)
    ensures
        read_lines(ls).map_values(|l: Seq<char>| trim(l)) == ls.map_values(|l: Seq<char>| trim(l)),
{
    assert forall|i: int| 0 <= i < ls.len() implies trim(#[trigger] strip_cr(ls[i])) == trim(ls[i]) by {
        crate::text::lemma_trim_strip_cr(ls[i]);
    }
    assert(read_lines(ls).map_values(|l: Seq<char>| trim(l)) =~= ls.map_values(|l: Seq<char>| trim(l)));
}

/// A message block whose lines are followed by a blank line and a heading
/// reads as the plain value of the message.
proof fn lemma_message_step(ls: Seq<Seq<char>>, p: int, m: Seq<char>, f: SectionFields)
    requires
        0 <= p,
        p + 2 + value_lines(m).len() < ls.len(),
        ls[p] == "## Message"@,
        ls.subrange(p + 1, p + 1 + value_lines(m).len()) == read_lines(value_lines(m)),
        ls[p + 1 + value_lines(m).len()] == Seq::<char>::empty(),
        ends_plain_block(ls[p + 2 + value_lines(m).len()]),
        plain_lines_ok(m),
    ensures
        section_body(ls, p, f) == section_body(
            ls,
            p + 2 + value_lines(m).len(),
            SectionFields { message: marker_value(plain_value(m)), ..f },
        ),
{
    lemma_marker_lines();
    reveal_strlit("{none}");
    let vm = value_lines(m);
    let nm = vm.len() as int;
    let sub = ls.subrange(p + 1, p + 1 + nm);
    assert forall|i: int| p + 1 <= i < p + 1 + nm implies !ends_plain_block(#[trigger] ls[i]) by {
        assert(ls[i] == sub[i - p - 1]);
        assert(sub[i - p - 1] == strip_cr(vm[i - p - 1]));
        crate::text::lemma_trim_strip_cr(vm[i - p - 1]);
    }
    lemma_plain_scan_over(ls, p + 1, nm, seq![]);
    lemma_trim_read_lines(vm);
    let u = unlines(vm.map_values(|l: Seq<char>| trim(l)));
    assert(Seq::<char>::empty() + unlines(sub.map_values(|l: Seq<char>| trim(l))) == u);
    let e = Seq::<char>::empty();
    assert(plain_scan(ls, p + 1 + nm, u) == plain_scan(ls, p + 2 + nm, u + trim(e) + seq!['\n']));
    assert(u + trim(e) + seq!['\n'] =~= u + seq!['\n']);
    assert(plain_scan(ls, p + 2 + nm, u + seq!['\n']) == (u + seq!['\n'], p + 2 + nm));
    crate::text::lemma_trim_append_ws(u, '\n');
    assert(plain_block(ls, p + 1) == (marker_value(plain_value(m)), p + 2 + nm));
}

/// A command block: the fence naming the mode, the command's lines, the
/// closing fence.
proof fn lemma_command_step(ls: Seq<Seq<char>>, p: int, mo: Seq<char>, c: Seq<char>, f: SectionFields)
    requires
        0 <= p,
        p + 3 + value_lines(c).len() <= ls.len(),
        ls[p] == "## Command"@,
        ls[p + 1] == "```bash "@ + mo,
        ls.subrange(p + 2, p + 2 + value_lines(c).len()) == read_lines(value_lines(c)),
        ls[p + 2 + value_lines(c).len()] == "```"@,
        mode_word(mo),
        code_lines_ok(c),
    ensures
        section_body(ls, p, f) == section_body(
            ls,
            p + 3 + value_lines(c).len(),
            SectionFields { mode: Some(mo), command: nonblank(code_value(c)), ..f },
        ),
{
    lemma_marker_lines();
    lemma_mode_fence(mo);
    let vc = value_lines(c);
    let nc = vc.len() as int;
    let sub = ls.subrange(p + 2, p + 2 + nc);
    assert(open_fence(ls, p + 1) == (Some(mo), p + 2));
    assert forall|i: int| p + 2 <= i < p + 2 + nc implies !is_fence(#[trigger] ls[i]) by {
        assert(ls[i] == sub[i - p - 2]);
        assert(sub[i - p - 2] == strip_cr(vc[i - p - 2]));
        crate::text::lemma_trim_strip_cr(vc[i - p - 2]);
    }
    lemma_code_scan_over(ls, p + 2, nc, seq![]);
    let u = unlines(read_lines(vc));
    assert(Seq::<char>::empty() + unlines(sub) == u);
    assert(code_scan(ls, p + 2 + nc, u) == (u, p + 3 + nc));
    assert(code_block(ls, p + 1) == (Some(mo), nonblank(code_value(c)), p + 3 + nc));
}

/// A result block: a bare fence, the result's lines, the closing fence.
proof fn lemma_result_step(ls: Seq<Seq<char>>, p: int, r: Seq<char>, f: SectionFields)
    requires
        0 <= p,
        p + 3 + value_lines(r).len() <= ls.len(),
        ls[p] == "## Result"@,
        ls[p + 1] == "```"@,
        ls.subrange(p + 2, p + 2 + value_lines(r).len()) == read_lines(value_lines(r)),
        ls[p + 2 + value_lines(r).len()] == "```"@,
        code_lines_ok(r),
    ensures
        section_body(ls, p, f) == section_body(
            ls,
            p + 3 + value_lines(r).len(),
            SectionFields { result: nonblank(code_value(r)), ..f },
        ),
{
    lemma_marker_lines();
    let vr = value_lines(r);
    let nr = vr.len() as int;
    let sub = ls.subrange(p + 2, p + 2 + nr);
    assert(open_fence(ls, p + 1) == (fence_mode("```"@), p + 2));
    assert forall|i: int| p + 2 <= i < p + 2 + nr implies !is_fence(#[trigger] ls[i]) by {
        assert(ls[i] == sub[i - p - 2]);
        assert(sub[i - p - 2] == strip_cr(vr[i - p - 2]));
        crate::text::lemma_trim_strip_cr(vr[i - p - 2]);
    }
    lemma_code_scan_over(ls, p + 2, nr, seq![]);
    let u = unlines(read_lines(vr));
    assert(Seq::<char>::empty() + unlines(sub) == u);
    assert(code_scan(ls, p + 2 + nr, u) == (u, p + 3 + nr));
    assert(code_block(ls, p + 1) == (fence_mode("```"@), nonblank(code_value(r)), p + 3 + nr));
}

/// A tag block that runs to the end of the file or to the next section.
proof fn lemma_tag_step(ls: Seq<Seq<char>>, p: int, g: Seq<char>, f: SectionFields)
    requires
        0 <= p,
        p + 1 + value_lines(g).len() <= ls.len(),
        ls[p] == "## Tag"@,
        ls.subrange(p + 1, p + 1 + value_lines(g).len()) == read_lines(value_lines(g)),
        p + 1 + value_lines(g).len() == ls.len() || is_section_header(ls[p + 1 + value_lines(g).len()]),
        plain_lines_ok(g),
    ensures
        section_body(ls, p, f) == (
            SectionFields { tags: apply_tags(f.tags, marker_value(plain_value(g))), ..f },
            p + 1 + value_lines(g).len(),
        ),
{
    lemma_marker_lines();
    reveal_strlit("{none}");
    let vg = value_lines(g);
    let ng = vg.len() as int;
    let q = p + 1 + ng;
    let sub = ls.subrange(p + 1, q);
    assert forall|i: int| p + 1 <= i < q implies !ends_plain_block(#[trigger] ls[i]) by {
        assert(ls[i] == sub[i - p - 1]);
        assert(sub[i - p - 1] == strip_cr(vg[i - p - 1]));
        crate::text::lemma_trim_strip_cr(vg[i - p - 1]);
    }
    lemma_plain_scan_over(ls, p + 1, ng, seq![]);
    lemma_trim_read_lines(vg);
    let u = unlines(vg.map_values(|l: Seq<char>| trim(l)));
    assert(Seq::<char>::empty() + unlines(sub.map_values(|l: Seq<char>| trim(l))) == u);
    assert(plain_scan(ls, q, u) == (u, q));
    assert(plain_block(ls, p + 1) == (marker_value(plain_value(g)), q));
    let f4 = SectionFields { tags: apply_tags(f.tags, marker_value(plain_value(g))), ..f };
    assert(section_body(ls, q, f4) == (f4, q));
}

/// Trimming what is left once trailing whitespace is dropped is trimming.
proof fn lemma_trim_trim_end(t: Seq<char>)
    ensures
        trim(trim_end(t)) == trim(t),
    decreases t.len(),
{
    if t.len() > 0 && is_ws(t.last()) {
        lemma_trim_trim_end(t.drop_last());
        assert(t.drop_last() + seq![t.last()] =~= t);
        crate::text::lemma_trim_append_ws(t.drop_last(), t.last());
    }
}

/// Trailing whitespace of what follows a text is dropped from the two together.
proof fn lemma_trim_end_append(a: Seq<char>, b: Seq<char>)
    requires
        trim_end(b).len() > 0,
    ensures
        trim_end(a + b) == a + trim_end(b),
    decreases b.len(),
{
    if b.len() > 0 && is_ws(b.last()) {
        assert((a + b).drop_last() =~= a + b.drop_last());
        assert((a + b).last() == b.last());
        lemma_trim_end_append(a, b.drop_last());
    } else {
        assert(b.len() > 0);
        assert((a + b).last() == b.last());
    }
}

/// The header line of an entry, as read, opens a section titled with the
/// trimmed title.
proof fn lemma_header_line(t: Seq<char>)
    requires
        header_title(t),
    ensures
        !("# "@ + t).contains('\n'),
        is_section_header(strip_cr("# "@ + t)),
        section_title(strip_cr("# "@ + t)) == trim(t),
{
    reveal_strlit("# ");
    let h = "# "@ + t;
    assert(!h.contains('\n')) by {
        if h.contains('\n') {
            let j = choose|j: int| 0 <= j < h.len() && h[j] == '\n';
            assert(t[j - 2] == '\n');
        }
    }
    crate::text::lemma_trim_strip_cr(h);
    lemma_trim_trim_end(t);
    let te = trim_end(t);
    assert(te.len() > 0) by {
        if te.len() == 0 {
            assert(te =~= Seq::<char>::empty());
            assert(trim(te) =~= Seq::<char>::empty());
        }
    }
    lemma_trim_end_append("# "@, t);
    assert(h[0] == '#');
    assert(trim_start(h) == h);
    assert(trim(h) == "# "@ + te);
    assert(("# "@ + te).subrange(0, 2) =~= "# "@);
    assert(("# "@ + te).skip(2) =~= te);
    assert(trim_start_matches("# "@ + te, "# "@) == trim_start_matches(te, "# "@));
    assert(section_title(strip_cr(h)) == trim(te));
}

/// The lines of a file from line `p` on are those of `l` there.
proof fn lemma_lines_at(ls: Seq<Seq<char>>, p: int, l: Seq<Seq<char>>, a: int, b: int)
    requires
        0 <= p,
        p + l.len() <= ls.len(),
        ls.subrange(p, p + l.len()) == l,
        0 <= a <= b <= l.len(),
    ensures
        ls.subrange(p + a, p + b) == l.subrange(a, b),
        a < l.len() ==> ls[p + a] == l[a],
{
    assert(ls.subrange(p + a, p + b) =~= l.subrange(a, b)) by {
        assert forall|i: int| 0 <= i < b - a implies ls.subrange(p + a, p + b)[i] == l.subrange(a, b)[i] by {
            assert(ls.subrange(p, p + l.len())[a + i] == l[a + i]);
        }
    }
    if a < l.len() {
        assert(ls.subrange(p, p + l.len())[a] == l[a]);
    }
}

/// The lines of an entry, as read, where each stands.
proof fn lemma_read_positions(t: Seq<char>, m: Seq<char>, c: Seq<char>, mo: Seq<char>, r: Seq<char>, g: Seq<char>)
    requires
        mode_word(mo),
    ensures
        ({
            let ls = read_lines(entry_lines(t, m, c, mo, r, g));
            let nm = value_lines(m).len() as int;
            let nc = value_lines(c).len() as int;
            let nr = value_lines(r).len() as int;
            let ng = value_lines(g).len() as int;
            &&& ls.len() == 13 + nm + nc + nr + ng
            &&& ls[0] == strip_cr("# "@ + t)
            &&& ls[1] == Seq::<char>::empty()
            &&& ls[2] == "## Message"@
            &&& ls.subrange(3, 3 + nm) == read_lines(value_lines(m))
            &&& ls[3 + nm] == Seq::<char>::empty()
            &&& ls[4 + nm] == "## Command"@
            &&& ls[5 + nm] == "```bash "@ + mo
            &&& ls.subrange(6 + nm, 6 + nm + nc) == read_lines(value_lines(c))
            &&& ls[6 + nm + nc] == "```"@
            &&& ls[7 + nm + nc] == Seq::<char>::empty()
            &&& ls[8 + nm + nc] == "## Result"@
            &&& ls[9 + nm + nc] == "```"@
            &&& ls.subrange(10 + nm + nc, 10 + nm + nc + nr) == read_lines(value_lines(r))
            &&& ls[10 + nm + nc + nr] == "```"@
            &&& ls[11 + nm + nc + nr] == Seq::<char>::empty()
            &&& ls[12 + nm + nc + nr] == "## Tag"@
            &&& ls.subrange(13 + nm + nc + nr, 13 + nm + nc + nr + ng) == read_lines(value_lines(g))
        }),
{
    lemma_entry_positions(t, m, c, mo, r, g);
    lemma_marker_lines();
    lemma_mode_fence(mo);
    let l = entry_lines(t, m, c, mo, r, g);
    let ls = read_lines(l);
    let nm = value_lines(m).len() as int;
    let nc = value_lines(c).len() as int;
    let nr = value_lines(r).len() as int;
    let ng = value_lines(g).len() as int;
    assert(strip_cr(Seq::<char>::empty()) == Seq::<char>::empty());
    assert(ls[1] == strip_cr(l[1]));
    assert(ls[2] == strip_cr(l[2]));
    assert(ls[3 + nm] == strip_cr(l[3 + nm]));
    assert(ls[4 + nm] == strip_cr(l[4 + nm]));
    assert(ls[5 + nm] == strip_cr(l[5 + nm]));
    assert(ls[6 + nm + nc] == strip_cr(l[6 + nm + nc]));
    assert(ls[7 + nm + nc] == strip_cr(l[7 + nm + nc]));
    assert(ls[8 + nm + nc] == strip_cr(l[8 + nm + nc]));
    assert(ls[9 + nm + nc] == strip_cr(l[9 + nm + nc]));
    assert(ls[10 + nm + nc + nr] == strip_cr(l[10 + nm + nc + nr]));
    assert(ls[11 + nm + nc + nr] == strip_cr(l[11 + nm + nc + nr]));
    assert(ls[12 + nm + nc + nr] == strip_cr(l[12 + nm + nc + nr]));
    assert(ls.subrange(3, 3 + nm) =~= read_lines(l.subrange(3, 3 + nm)));
    assert(ls.subrange(6 + nm, 6 + nm + nc) =~= read_lines(l.subrange(6 + nm, 6 + nm + nc)));
    assert(ls.subrange(10 + nm + nc, 10 + nm + nc + nr) =~= read_lines(l.subrange(10 + nm + nc, 10 + nm + nc + nr)));
    assert(ls.subrange(13 + nm + nc + nr, 13 + nm + nc + nr + ng) =~= read_lines(
        l.subrange(13 + nm + nc + nr, 13 + nm + nc + nr + ng),
    ));
}

/// An entry's lines, as read, at line `p` of a file, followed by the end of
/// the file or another section, read as the one section the entry makes,
/// then the sections after it.
#[verifier::rlimit(30)]
proof fn lemma_entry_sections_at(
    ls: Seq<Seq<char>>,
    p: int,
    index: int,
    t: Seq<char>,
    m: Seq<char>,
    c: Seq<char>,
    mo: Seq<char>,
    r: Seq<char>,
    g: Seq<char>,
    path: Seq<char>,
    rt: RecordType,
)
    requires
        header_title(t),
        plain_lines_ok(m),
        code_lines_ok(c),
        mode_word(mo),
        code_lines_ok(r),
        plain_lines_ok(g),
        0 <= p,
        p + entry_lines(t, m, c, mo, r, g).len() <= ls.len(),
        ls.subrange(p, p + entry_lines(t, m, c, mo, r, g).len()) == read_lines(entry_lines(t, m, c, mo, r, g)),
        p + entry_lines(t, m, c, mo, r, g).len() == ls.len() || is_section_header(
            ls[p + entry_lines(t, m, c, mo, r, g).len()],
        ),
    ensures
        sections_from(ls, p, index, path, rt) == seq![
            section_record(
                path,
                rt,
                index,
                p,
                p + entry_lines(t, m, c, mo, r, g).len(),
                trim(t),
                SectionFields {
                    message: marker_value(plain_value(m)),
                    command: nonblank(code_value(c)),
                    mode: Some(mo),
                    result: nonblank(code_value(r)),
                    tags: apply_tags(seq![], marker_value(plain_value(g))),
                },
            ),
        ] + sections_from(ls, p + entry_lines(t, m, c, mo, r, g).len(), index + 1, path, rt),
{
    lemma_marker_lines();
    lemma_read_positions(t, m, c, mo, r, g);
    lemma_header_line(t);
    let l = read_lines(entry_lines(t, m, c, mo, r, g));
    let nm = value_lines(m).len() as int;
    let nc = value_lines(c).len() as int;
    let nr = value_lines(r).len() as int;
    let ng = value_lines(g).len() as int;
    let n = l.len() as int;
    lemma_lines_at(ls, p, l, 0, 0);
    lemma_lines_at(ls, p, l, 1, 1);
    lemma_lines_at(ls, p, l, 2, 2);
    lemma_lines_at(ls, p, l, 3, 3 + nm);
    lemma_lines_at(ls, p, l, 3 + nm, 3 + nm);
    lemma_lines_at(ls, p, l, 4 + nm, 4 + nm);
    lemma_lines_at(ls, p, l, 5 + nm, 5 + nm);
    lemma_lines_at(ls, p, l, 6 + nm, 6 + nm + nc);
    lemma_lines_at(ls, p, l, 6 + nm + nc, 6 + nm + nc);
    lemma_lines_at(ls, p, l, 7 + nm + nc, 7 + nm + nc);
    lemma_lines_at(ls, p, l, 8 + nm + nc, 8 + nm + nc);
    lemma_lines_at(ls, p, l, 9 + nm + nc, 9 + nm + nc);
    lemma_lines_at(ls, p, l, 10 + nm + nc, 10 + nm + nc + nr);
    lemma_lines_at(ls, p, l, 10 + nm + nc + nr, 10 + nm + nc + nr);
    lemma_lines_at(ls, p, l, 11 + nm + nc + nr, 11 + nm + nc + nr);
    lemma_lines_at(ls, p, l, 12 + nm + nc + nr, 12 + nm + nc + nr);
    lemma_lines_at(ls, p, l, 13 + nm + nc + nr, n);
    let f0 = no_fields();
    lemma_blank_step(ls, p + 1, f0);
    lemma_message_step(ls, p + 2, m, f0);
    let f1 = SectionFields { message: marker_value(plain_value(m)), ..f0 };
    lemma_command_step(ls, p + 4 + nm, mo, c, f1);
    let f2 = SectionFields { mode: Some(mo), command: nonblank(code_value(c)), ..f1 };
    lemma_blank_step(ls, p + 7 + nm + nc, f2);
    lemma_result_step(ls, p + 8 + nm + nc, r, f2);
    let f3 = SectionFields { result: nonblank(code_value(r)), ..f2 };
    lemma_blank_step(ls, p + 11 + nm + nc + nr, f3);
    lemma_tag_step(ls, p + 12 + nm + nc + nr, g, f3);
    let f4 = SectionFields { tags: apply_tags(f3.tags, marker_value(plain_value(g))), ..f3 };
    assert(section_body(ls, p + 1, f0) == (f4, p + n));
    assert(sections_from(ls, p, index, path, rt) == seq![section_record(path, rt, index, p, p + n, trim(t), f4)]
        + sections_from(ls, p + n, index + 1, path, rt));
}

/// No line of an entry holds a newline.
proof fn lemma_entry_lines_one_line(t: Seq<char>, m: Seq<char>, c: Seq<char>, mo: Seq<char>, r: Seq<char>, g: Seq<char>)
    requires
        header_title(t),
        mode_word(mo),
    ensures
        forall|i: int|
            0 <= i < entry_lines(t, m, c, mo, r, g).len() ==> !(#[trigger] entry_lines(t, m, c, mo, r, g)[i]).contains(
                '\n',
            ),
{
    lemma_marker_lines();
    lemma_mode_fence(mo);
    lemma_header_line(t);
    lemma_split_pieces(m, '\n', seq![]);
    lemma_split_pieces(c, '\n', seq![]);
    lemma_split_pieces(r, '\n', seq![]);
    lemma_split_pieces(g, '\n', seq![]);
    let a = seq!["# "@ + t, seq![], "## Message"@];
    let b = seq![seq![], "## Command"@, "```bash "@ + mo];
    let cc = seq!["```"@, seq![], "## Result"@, "```"@];
    let d = seq!["```"@, seq![], "## Tag"@];
    let ls = entry_lines(t, m, c, mo, r, g);
    assert(ls == a + value_lines(m) + b + value_lines(c) + cc + value_lines(r) + d + value_lines(g));
    lemma_one_line_concat(a, value_lines(m));
    lemma_one_line_concat(a + value_lines(m), b);
    lemma_one_line_concat(a + value_lines(m) + b, value_lines(c));
    lemma_one_line_concat(a + value_lines(m) + b + value_lines(c), cc);
    lemma_one_line_concat(a + value_lines(m) + b + value_lines(c) + cc, value_lines(r));
    lemma_one_line_concat(a + value_lines(m) + b + value_lines(c) + cc + value_lines(r), d);
    lemma_one_line_concat(a + value_lines(m) + b + value_lines(c) + cc + value_lines(r) + d, value_lines(g));
}

proof fn lemma_one_line_concat(x: Seq<Seq<char>>, y: Seq<Seq<char>>)
    requires
        forall|i: int| 0 <= i < x.len() ==> !(#[trigger] x[i]).contains('\n'),
        forall|i: int| 0 <= i < y.len() ==> !(#[trigger] y[i]).contains('\n'),
    ensures
        forall|i: int| 0 <= i < (x + y).len() ==> !(#[trigger] (x + y)[i]).contains('\n'),
{
    assert forall|i: int| 0 <= i < (x + y).len() implies !(#[trigger] (x + y)[i]).contains('\n') by {
        if i < x.len() {
            assert((x + y)[i] == x[i]);
        } else {
            assert((x + y)[i] == y[i - x.len()]);
        }
    }
}

/// The lines of the entry written for `md`.
pub open spec fn md_lines(md: Md) -> Seq<Seq<char>> {
    entry_lines(
        or_none(md.title.deep_view()),
        or_none(md.message.deep_view()),
        join_words(md.command.deep_view(), " "@),
        md.mode@,
        or_none(md.result.deep_view()),
        or_none(md.tag.deep_view()),
    )
}

/// The entry of `md` reads back as one section: the title (`{none}` when
/// absent) is on one line, is not blank, and does not open with `# ` once
/// its trailing whitespace is dropped; no line of the message or tag line
/// opens a heading; no line of the command or result is a fence; the mode is
/// one word. Absent values are written as `{none}`.
pub open spec fn reads_back(md: Md) -> bool {
    &&& header_title(or_none(md.title.deep_view()))
    &&& plain_lines_ok(or_none(md.message.deep_view()))
    &&& code_lines_ok(join_words(md.command.deep_view(), " "@))
    &&& mode_word(md.mode@)
    &&& code_lines_ok(or_none(md.result.deep_view()))
    &&& plain_lines_ok(or_none(md.tag.deep_view()))
}

/// The section the entry of `md` reads as, numbered `index`, its header at
/// line `start`: it spans the entry's lines; its title is the title trimmed
/// (`{none}` for none); its message and tag line are read as plain text
/// (each line trimmed, then the whole; nothing when blank or `{none}`, so an
/// absent one stays absent), the tags split at commas; its command (the
/// words joined by spaces) and result (`{none}` for none) are read as code
/// (each line without a final carriage return, then the whole trimmed;
/// nothing when blank); its mode is the mode.
pub open spec fn entry_section(md: Md, path: Seq<char>, rt: RecordType, index: int, start: int) -> RecordView {
    RecordView {
        index,
        start_line: Some(start),
        end_line: Some(start + md_lines(md).len()),
        path,
        unit_type: UnitType::Section,
        record_type: rt,
        count: None,
        title: Some(trim(or_none(md.title.deep_view()))),
        message: marker_value(plain_value(or_none(md.message.deep_view()))),
        command: nonblank(code_value(join_words(md.command.deep_view(), " "@))),
        mode: Some(md.mode@),
        result: nonblank(code_value(or_none(md.result.deep_view()))),
        tags: match marker_value(plain_value(or_none(md.tag.deep_view()))) {
            Some(g) => tag_list(g),
            None => seq![],
        },
    }
}

/// The text of a file the entries of `mds` were appended to, in order, each
/// followed by a line ending.
pub open spec fn entries_text(mds: Seq<Md>) -> Seq<char>
    decreases mds.len(),
{
    if mds.len() == 0 {
        seq![]
    } else {
        mds[0].spec_render() + "\n"@ + entries_text(mds.drop_first())
    }
}

/// The lines written for the entries of `mds`, in order.
pub open spec fn entries_lines(mds: Seq<Md>) -> Seq<Seq<char>>
    decreases mds.len(),
{
    if mds.len() == 0 {
        seq![]
    } else {
        md_lines(mds[0]) + entries_lines(mds.drop_first())
    }
}

/// The sections the entries of `mds` read as, numbered from `index`, the
/// first header at line `start`.
pub open spec fn entries_sections(mds: Seq<Md>, path: Seq<char>, rt: RecordType, index: int, start: int) -> Seq<RecordView>
    decreases mds.len(),
{
    if mds.len() == 0 {
        seq![]
    } else {
        seq![entry_section(mds[0], path, rt, index, start)] + entries_sections(
            mds.drop_first(),
            path,
            rt,
            index + 1,
            start + md_lines(mds[0]).len(),
        )
    }
}

/// The text of appended entries is the text of their lines, and none of the
/// lines holds a newline.
proof fn lemma_entries_layout(mds: Seq<Md>)
    requires
        forall|i: int| 0 <= i < mds.len() ==> reads_back(#[trigger] mds[i]),
    ensures
        entries_text(mds) == unlines(entries_lines(mds)),
        forall|i: int| 0 <= i < entries_lines(mds).len() ==> !(#[trigger] entries_lines(mds)[i]).contains('\n'),
    decreases mds.len(),
{
    if mds.len() == 0 {
        assert(unlines(Seq::<Seq<char>>::empty()) =~= Seq::<char>::empty());
    } else {
        let md = mds[0];
        let rest = mds.drop_first();
        assert forall|i: int| 0 <= i < rest.len() implies reads_back(#[trigger] rest[i]) by {
            assert(rest[i] == mds[i + 1]);
        }
        lemma_entries_layout(rest);
        assert(reads_back(md));
        let t = or_none(md.title.deep_view());
        let m = or_none(md.message.deep_view());
        let c = join_words(md.command.deep_view(), " "@);
        let mo = md.mode@;
        let r = or_none(md.result.deep_view());
        let g = or_none(md.tag.deep_view());
        lemma_entry_layout(t, m, c, mo, r, g);
        lemma_entry_lines_one_line(t, m, c, mo, r, g);
        assert(md.spec_render() == record_text(t, m, Some(c), Some(mo), r, g));
        lemma_unlines_append(md_lines(md), entries_lines(rest));
        lemma_one_line_concat(md_lines(md), entries_lines(rest));
    }
}

/// The sections read from line `p` on, where the lines of the entries of
/// `mds`, as read, stand from there to the end, are the entries' sections.
proof fn lemma_entries_walk(ls: Seq<Seq<char>>, p: int, index: int, mds: Seq<Md>, path: Seq<char>, rt: RecordType)
    requires
        forall|i: int| 0 <= i < mds.len() ==> reads_back(#[trigger] mds[i]),
        0 <= p <= ls.len(),
        ls.subrange(p, ls.len() as int) == read_lines(entries_lines(mds)),
    ensures
        sections_from(ls, p, index, path, rt) == entries_sections(mds, path, rt, index, p),
    decreases mds.len(),
{
    if mds.len() == 0 {
        assert(ls.subrange(p, ls.len() as int).len() == 0);
        assert(sections_from(ls, p, index, path, rt) =~= Seq::<RecordView>::empty());
    } else {
        let md = mds[0];
        let rest = mds.drop_first();
        assert forall|i: int| 0 <= i < rest.len() implies reads_back(#[trigger] rest[i]) by {
            assert(rest[i] == mds[i + 1]);
        }
        assert(reads_back(md));
        let t = or_none(md.title.deep_view());
        let m = or_none(md.message.deep_view());
        let c = join_words(md.command.deep_view(), " "@);
        let mo = md.mode@;
        let r = or_none(md.result.deep_view());
        let g = or_none(md.tag.deep_view());
        let l = read_lines(md_lines(md));
        let n = l.len() as int;
        let whole = ls.subrange(p, ls.len() as int);
        assert(entries_lines(mds) == md_lines(md) + entries_lines(rest));
        assert(whole =~= l + read_lines(entries_lines(rest)));
        lemma_lines_at(ls, p, whole, 0, n);
        assert(whole.subrange(0, n) =~= l);
        lemma_lines_at(ls, p, whole, n, whole.len() as int);
        assert(whole.subrange(n, whole.len() as int) =~= read_lines(entries_lines(rest)));
        if rest.len() > 0 {
            let md2 = rest[0];
            assert(reads_back(md2));
            lemma_header_line(or_none(md2.title.deep_view()));
            lemma_entry_positions(
                or_none(md2.title.deep_view()),
                or_none(md2.message.deep_view()),
                join_words(md2.command.deep_view(), " "@),
                md2.mode@,
                or_none(md2.result.deep_view()),
                or_none(md2.tag.deep_view()),
            );
            assert(entries_lines(rest) == md_lines(md2) + entries_lines(rest.drop_first()));
            assert(read_lines(entries_lines(rest))[0] == strip_cr(md_lines(md2)[0]));
            assert(whole[n] == read_lines(entries_lines(rest))[0]);
            assert(ls[p + n] == whole[n]);
        } else {
            assert(entries_lines(rest) =~= Seq::<Seq<char>>::empty());
        }
        lemma_entry_sections_at(ls, p, index, t, m, c, mo, r, g, path, rt);
        lemma_entries_walk(ls, p + n, index + 1, rest, path, rt);
        reveal_strlit("{none}");
        assert(apply_tags(seq![], marker_value(plain_value(g))) == entry_section(md, path, rt, index, p).tags);
    }
}

/// What a search reads of recorded entries is what was recorded: a file the
/// entries of `mds` were appended to, in order, each followed by a line
/// ending, reads as one section for each entry, in order: `entry_section`,
/// numbered from zero and spanning the entry's lines, whose values are those
/// written, trimmed. This holds whenever each entry reads back as one
/// section (`reads_back`).
pub proof fn law_entries_read_back(mds: Seq<Md>, path: Seq<char>, rt: RecordType)
    requires
        forall|i: int| 0 <= i < mds.len() ==> reads_back(#[trigger] mds[i]),
    ensures
        sections_of(entries_text(mds), path, rt) == entries_sections(mds, path, rt, 0, 0),
{
    lemma_entries_layout(mds);
    let raw = entries_lines(mds);
    crate::text::lemma_lines_unlines_cr(raw);
    let ls = read_lines(raw);
    assert(ls.subrange(0, ls.len() as int) =~= ls);
    lemma_entries_walk(ls, 0, 0, mds, path, rt);
}

/// Words joined with a separator: the first word, the separator, then the
/// rest joined.
proof fn lemma_join_front(ws: Seq<Seq<char>>, sep: Seq<char>)
    requires
        ws.len() >= 2,
    ensures
        join_words(ws, sep) == ws[0] + sep + join_words(ws.drop_first(), sep),
    decreases ws.len(),
{
    if ws.len() == 2 {
        assert(ws.drop_last().len() == 1);
        assert(join_words(ws.drop_last(), sep) == ws[0]);
        assert(ws.drop_first().len() == 1);
        assert(join_words(ws.drop_first(), sep) == ws[1]);
    } else {
        lemma_join_front(ws.drop_last(), sep);
        assert(ws.drop_last().drop_first() =~= ws.drop_first().drop_last());
        assert(ws.drop_first().last() == ws.last());
        assert(ws.drop_last()[0] == ws[0]);
        assert(join_words(ws, sep) =~= ws[0] + sep + join_words(ws.drop_first(), sep));
    }
}

/// Words without whitespace joined with spaces split back into the same words.
proof fn lemma_words_join(ws: Seq<Seq<char>>)
    requires
        forall|i: int| 0 <= i < ws.len() ==> mode_word(#[trigger] ws[i]),
    ensures
        words(join_words(ws, " "@)) == ws,
    decreases ws.len(),
{
    reveal_strlit(" ");
    if ws.len() == 0 {
        assert(words(Seq::<char>::empty()) =~= Seq::<Seq<char>>::empty());
    } else if ws.len() == 1 {
        assert(mode_word(ws[0]));
        lemma_words_single(ws[0], seq![]);
        assert(Seq::<char>::empty() + ws[0] =~= ws[0]);
        assert(seq![ws[0]] =~= ws);
    } else {
        lemma_join_front(ws, " "@);
        let rest = ws.drop_first();
        assert forall|i: int| 0 <= i < rest.len() implies mode_word(#[trigger] rest[i]) by {
            assert(rest[i] == ws[i + 1]);
        }
        lemma_words_join(rest);
        assert(mode_word(ws[0]));
        crate::text::lemma_words_word_space(ws[0], join_words(rest, " "@), seq![]);
        assert(ws[0] + " "@ + join_words(rest, " "@) =~= ws[0] + seq![' '] + join_words(rest, " "@));
        assert(Seq::<char>::empty() + ws[0] =~= ws[0]);
        assert(seq![ws[0]] + rest =~= ws);
    }
}

/// Words without whitespace joined with spaces: the text starts and ends with
/// a word's character, and its only whitespace is the spaces between them.
proof fn lemma_join_chars(ws: Seq<Seq<char>>)
    requires
        ws.len() >= 1,
        forall|i: int| 0 <= i < ws.len() ==> mode_word(#[trigger] ws[i]),
    ensures
        join_words(ws, " "@).len() > 0,
        !is_ws(join_words(ws, " "@)[0]),
        !is_ws(join_words(ws, " "@).last()),
        forall|i: int| 0 <= i < join_words(ws, " "@).len() ==> #[trigger] join_words(ws, " "@)[i] == ' ' || !is_ws(
            join_words(ws, " "@)[i],
        ),
    decreases ws.len(),
{
    reveal_strlit(" ");
    let j = join_words(ws, " "@);
    if ws.len() == 1 {
        assert(mode_word(ws[0]));
        assert(j == ws[0]);
    } else {
        let dl = ws.drop_last();
        assert forall|i: int| 0 <= i < dl.len() implies mode_word(#[trigger] dl[i]) by {
            assert(dl[i] == ws[i]);
        }
        lemma_join_chars(dl);
        let a = join_words(dl, " "@);
        let w = ws.last();
        assert(mode_word(ws[ws.len() - 1]));
        assert(j == a + " "@ + w);
        assert(j[0] == a[0]);
        assert(j.last() == w.last());
        assert forall|i: int| 0 <= i < j.len() implies #[trigger] j[i] == ' ' || !is_ws(j[i]) by {
            if i < a.len() {
                assert(j[i] == a[i]);
            } else if i == a.len() {
                assert(j[i] == ' ');
            } else {
                assert(j[i] == w[i - a.len() - 1]);
            }
        }
    }
}

/// A recorded command read back runs again as it was recorded: the section
/// an entry reads as asks for a run of the same program with the same
/// arguments in the same mode, when each word of the command is non-empty and
/// holds no whitespace and the mode is `batch` or `pty`.
pub proof fn law_entry_runs_as_recorded(md: Md, path: Seq<char>, rt: RecordType, index: int, start: int)
    requires
        md.command@.len() >= 1,
        forall|i: int| 0 <= i < md.command@.len() ==> mode_word(#[trigger] md.command@[i]@),
        md.mode@ == "batch"@ || md.mode@ == "pty"@,
    ensures
        run_plan(entry_section(md, path, rt, index, start)) == Ok::<ExecutorView, OrsErrorView>(
            ExecutorView {
                pty: md.mode@ == "pty"@,
                command: md.command@[0]@,
                args: md.command.deep_view().skip(1),
            },
        ),
{
    reveal_strlit("batch");
    reveal_strlit("pty");
    let ws = md.command.deep_view();
    assert forall|i: int| 0 <= i < ws.len() implies mode_word(#[trigger] ws[i]) by {
        assert(ws[i] == md.command@[i]@);
    }
    lemma_words_join(ws);
    lemma_join_chars(ws);
    let j = join_words(ws, " "@);
    assert(!j.contains('\n')) by {
        if j.contains('\n') {
            let k = choose|k: int| 0 <= k < j.len() && j[k] == '\n';
            assert(j[k] == ' ' || !is_ws(j[k]));
        }
    }
    crate::text::lemma_split_single(j, '\n', seq![]);
    assert(Seq::<char>::empty() + j =~= j);
    assert(value_lines(j) == seq![j]);
    assert(strip_cr(j) == j);
    assert(read_lines(seq![j]) =~= seq![j]);
    crate::text::lemma_unlines_one(j);
    lemma_trim_fixed(j);
    lemma_trim_newlines(j);
    assert(code_value(j) == j);
    assert(ws[0] == md.command@[0]@);
    assert("batch"@ != "pty"@) by {
        assert("batch"@.len() != "pty"@.len());
    }
}

/// While a track is set, records go to the track's file: when the track file
/// holds a name without surrounding whitespace, a record made under the track
/// it names is appended to `NAME.md` in the tracks directory.
pub proof fn law_records_follow_the_track(md: Md, ctx: &Context, name: Seq<char>)
    requires
        trim(name) == name,
        name.len() > 0,
        md.track_name.deep_view() == track_name_of(Some(name)),
    ensures
        md.spec_file_path(ctx) == Ok::<Seq<char>, OrsErrorView>(join(ctx.tracks_dir@, name + ".md"@)),
{
}

// ---------------------------------------------------------------------------
// The count of a file of entries
// ---------------------------------------------------------------------------

/// No line of a value is counted as a header.
pub open spec fn no_header_lines(v: Seq<char>) -> bool {
    forall|i: int| 0 <= i < value_lines(v).len() ==> !counted(#[trigger] value_lines(v)[i])
}

/// A carriage return at the end of a line does not change whether it counts.
proof fn lemma_counted_strip_cr(x: Seq<char>)
    ensures
        counted(strip_cr(x)) == counted(x),
{
    reveal_strlit("# ");
    if x.len() > 0 && x.last() == '\r' {
        let y = x.drop_last();
        assert(y + seq!['\r'] =~= x);
        crate::text::lemma_trim_start_append(y, seq!['\r']);
        let ts = trim_start(y);
        if ts.len() > 0 {
            let tx = ts + seq!['\r'];
            if ts.len() >= 2 {
                assert(tx.subrange(0, 2) =~= ts.subrange(0, 2));
            } else {
                assert(tx[1] == '\r');
                assert(!starts_with(tx, "# "@)) by {
                    if starts_with(tx, "# "@) {
                        assert(tx.subrange(0, 2)[1] == ' ');
                    }
                }
            }
        } else {
            assert(seq!['\r'][0] == '\r');
            assert(seq!['\r'].drop_first() =~= Seq::<char>::empty());
            assert(trim_start(Seq::<char>::empty()) =~= Seq::<char>::empty());
            assert(trim_start(seq!['\r']) == trim_start(seq!['\r'].drop_first()));
        }
    }
}

/// Lines none of which counts give a count of zero, as read too.
proof fn lemma_no_count(ls: Seq<Seq<char>>)
    requires
        forall|i: int| 0 <= i < ls.len() ==> !counted(#[trigger] ls[i]),
    ensures
        header_count(read_lines(ls)) == 0,
    decreases ls.len(),
{
    if ls.len() > 0 {
        let dl = ls.drop_last();
        assert forall|i: int| 0 <= i < dl.len() implies !counted(#[trigger] dl[i]) by {
            assert(dl[i] == ls[i]);
        }
        lemma_no_count(dl);
        assert(read_lines(ls).drop_last() =~= read_lines(dl));
        assert(read_lines(ls).last() == strip_cr(ls.last()));
        assert(!counted(ls[ls.len() - 1]));
        lemma_counted_strip_cr(ls.last());
    } else {
        assert(read_lines(ls) =~= Seq::<Seq<char>>::empty());
    }
}

/// Lines joined, as read, are each run as read.
proof fn lemma_read_lines_append(a: Seq<Seq<char>>, b: Seq<Seq<char>>)
    ensures
        read_lines(a + b) == read_lines(a) + read_lines(b),
{
    assert(read_lines(a + b) =~= read_lines(a) + read_lines(b));
}

/// The entry of `md` has one line counted as a header, its header line,
/// when no line of its values counts.
proof fn lemma_entry_count(md: Md)
    requires
        reads_back(md),
        no_header_lines(or_none(md.message.deep_view())),
        no_header_lines(join_words(md.command.deep_view(), " "@)),
        no_header_lines(or_none(md.result.deep_view())),
        no_header_lines(or_none(md.tag.deep_view())),
    ensures
        header_count(read_lines(md_lines(md))) == 1,
{
    reveal_strlit("# ");
    reveal_strlit("## Message");
    reveal_strlit("## Command");
    reveal_strlit("## Result");
    reveal_strlit("## Tag");
    reveal_strlit("```");
    reveal_strlit("```bash ");
    let t = or_none(md.title.deep_view());
    let m = or_none(md.message.deep_view());
    let c = join_words(md.command.deep_view(), " "@);
    let mo = md.mode@;
    let r = or_none(md.result.deep_view());
    let g = or_none(md.tag.deep_view());
    lemma_header_line(t);
    lemma_marker_lines();
    lemma_mode_fence(mo);
    let a = seq!["# "@ + t, seq![], "## Message"@];
    let b = seq![seq![], "## Command"@, "```bash "@ + mo];
    let cc = seq!["```"@, seq![], "## Result"@, "```"@];
    let d = seq!["```"@, seq![], "## Tag"@];
    let vm = value_lines(m);
    let vc = value_lines(c);
    let vr = value_lines(r);
    let vg = value_lines(g);
    assert(md_lines(md) == a + vm + b + vc + cc + vr + d + vg);
    let h = "# "@ + t;
    assert(h[0] == '#');
    assert(trim_start(h) == h);
    assert(h.subrange(0, 2) =~= "# "@);
    lemma_counted_strip_cr(h);
    let e = Seq::<char>::empty();
    assert(trim_start(e) =~= e);
    assert(trim_start("## Message"@) == "## Message"@);
    assert(trim_start("## Command"@) == "## Command"@);
    assert(trim_start("## Result"@) == "## Result"@);
    assert(trim_start("## Tag"@) == "## Tag"@);
    assert(trim_start("```"@) == "```"@);
    assert(trim_start("```bash "@ + mo) == "```bash "@ + mo) by {
        assert(("```bash "@ + mo)[0] == '`');
    }
    assert(!counted("## Message"@)) by {
        assert("## Message"@.subrange(0, 2)[1] == '#');
    }
    assert(!counted("## Command"@)) by {
        assert("## Command"@.subrange(0, 2)[1] == '#');
    }
    assert(!counted("## Result"@)) by {
        assert("## Result"@.subrange(0, 2)[1] == '#');
    }
    assert(!counted("## Tag"@)) by {
        assert("## Tag"@.subrange(0, 2)[1] == '#');
    }
    assert(!counted("```"@)) by {
        assert("```"@.subrange(0, 2)[0] == '`');
    }
    assert(!counted("```bash "@ + mo)) by {
        assert(("```bash "@ + mo).subrange(0, 2)[0] == '`');
    }
    assert(!counted(e));
    assert forall|i: int| 0 <= i < b.len() implies !counted(#[trigger] b[i]) by {}
    assert forall|i: int| 0 <= i < cc.len() implies !counted(#[trigger] cc[i]) by {}
    assert forall|i: int| 0 <= i < d.len() implies !counted(#[trigger] d[i]) by {}
    lemma_no_count(b);
    lemma_no_count(cc);
    lemma_no_count(d);
    lemma_no_count(vm);
    lemma_no_count(vc);
    lemma_no_count(vr);
    lemma_no_count(vg);
    let ra = read_lines(a);
    assert(ra =~= seq![strip_cr(h), e, "## Message"@]);
    assert(counted(strip_cr(h)));
    assert(header_count(ra) == 1) by {
        reveal_with_fuel(header_count, 4);
        assert(ra.last() == "## Message"@);
        assert(ra.drop_last() =~= seq![strip_cr(h), e]);
        assert(ra.drop_last().last() == e);
        assert(ra.drop_last().drop_last().last() == strip_cr(h));
        assert(ra.drop_last().drop_last() =~= seq![strip_cr(h)]);
        assert(ra.drop_last().drop_last().drop_last() =~= Seq::<Seq<char>>::empty());
        assert(strip_cr(e) == e);
    }
    lemma_read_lines_append(a, vm);
    lemma_read_lines_append(a + vm, b);
    lemma_read_lines_append(a + vm + b, vc);
    lemma_read_lines_append(a + vm + b + vc, cc);
    lemma_read_lines_append(a + vm + b + vc + cc, vr);
    lemma_read_lines_append(a + vm + b + vc + cc + vr, d);
    lemma_read_lines_append(a + vm + b + vc + cc + vr + d, vg);
    lemma_header_count_append(read_lines(a), read_lines(vm));
    lemma_header_count_append(read_lines(a + vm), read_lines(b));
    lemma_header_count_append(read_lines(a + vm + b), read_lines(vc));
    lemma_header_count_append(read_lines(a + vm + b + vc), read_lines(cc));
    lemma_header_count_append(read_lines(a + vm + b + vc + cc), read_lines(vr));
    lemma_header_count_append(read_lines(a + vm + b + vc + cc + vr), read_lines(d));
    lemma_header_count_append(read_lines(a + vm + b + vc + cc + vr + d), read_lines(vg));
}

/// Appended entries count one header each.
proof fn lemma_entries_count(mds: Seq<Md>)
    requires
        forall|i: int| 0 <= i < mds.len() ==> entry_counts_once(#[trigger] mds[i]),
    ensures
        header_count(read_lines(entries_lines(mds))) == mds.len(),
    decreases mds.len(),
{
    if mds.len() == 0 {
        assert(read_lines(entries_lines(mds)) =~= Seq::<Seq<char>>::empty());
    } else {
        let rest = mds.drop_first();
        assert forall|i: int| 0 <= i < rest.len() implies entry_counts_once(#[trigger] rest[i]) by {
            assert(rest[i] == mds[i + 1]);
        }
        lemma_entries_count(rest);
        assert(entry_counts_once(mds[0]));
        lemma_entry_count(mds[0]);
        lemma_read_lines_append(md_lines(mds[0]), entries_lines(rest));
        lemma_header_count_append(read_lines(md_lines(mds[0])), read_lines(entries_lines(rest)));
    }
}

/// The entry of `md` reads back as one section and none of its values holds
/// a line counted as a header.
pub open spec fn entry_counts_once(md: Md) -> bool {
    &&& reads_back(md)
    &&& no_header_lines(or_none(md.message.deep_view()))
    &&& no_header_lines(join_words(md.command.deep_view(), " "@))
    &&& no_header_lines(or_none(md.result.deep_view()))
    &&& no_header_lines(or_none(md.tag.deep_view()))
}

/// The count the listing shows for a file of recorded entries is its number
/// of sections: a file the entries of `mds` were appended to counts one
/// header line per entry, and reads as that many sections, whenever each
/// entry reads back as one section and none of its values holds a line
/// counted as a header (`# ` after leading whitespace).
pub proof fn law_entries_count_their_sections(mds: Seq<Md>, path: Seq<char>, rt: RecordType)
    requires
        forall|i: int| 0 <= i < mds.len() ==> entry_counts_once(#[trigger] mds[i]),
    ensures
        header_count(lines(entries_text(mds))) == mds.len(),
        sections_of(entries_text(mds), path, rt).len() == mds.len(),
{
    assert forall|i: int| 0 <= i < mds.len() implies reads_back(#[trigger] mds[i]) by {
        assert(entry_counts_once(mds[i]));
    }
    lemma_entries_layout(mds);
    crate::text::lemma_lines_unlines_cr(entries_lines(mds));
    lemma_entries_count(mds);
    law_entries_read_back(mds, path, rt);
    lemma_sections_len_any(mds, path, rt, 0, 0);
}

/// The sections of entries are one per entry.
proof fn lemma_sections_len_any(mds: Seq<Md>, path: Seq<char>, rt: RecordType, index: int, start: int)
    ensures
        entries_sections(mds, path, rt, index, start).len() == mds.len(),
    decreases mds.len(),
{
    if mds.len() > 0 {
        lemma_sections_len_any(mds.drop_first(), path, rt, index + 1, start + md_lines(mds[0]).len());
    }
}

// ---------------------------------------------------------------------------
// Entries of plain one-line values
// ---------------------------------------------------------------------------

/// A value written on one line that is not blank and, once trimmed, opens
/// neither with `#` nor with a fence.
pub open spec fn simple_value(v: Seq<char>) -> bool {
    &&& !v.contains('\n')
    &&& trim(v).len() > 0
    &&& !starts_with(trim(v), "#"@)
    &&& !starts_with(trim(v), "```"@)
}

/// A record with a title, message, result and tag line, each a simple value,
/// a command whose words joined are a simple value, a message and tag line
/// that are not the `{none}` marker once trimmed, and a mode of `batch` or
/// `pty`.
pub open spec fn simple_entry(md: Md) -> bool {
    &&& md.title.deep_view() matches Some(t) && simple_value(t)
    &&& md.message.deep_view() matches Some(m) && simple_value(m) && trim(m) != "{none}"@
    &&& simple_value(join_words(md.command.deep_view(), " "@))
    &&& md.mode@ == "batch"@ || md.mode@ == "pty"@
    &&& md.result.deep_view() matches Some(r) && simple_value(r)
    &&& md.tag.deep_view() matches Some(g) && simple_value(g) && trim(g) != "{none}"@
}

/// A one-line value is its only line.
proof fn lemma_one_line(v: Seq<char>)
    requires
        !v.contains('\n'),
    ensures
        value_lines(v) == seq![v],
{
    crate::text::lemma_split_single(v, '\n', seq![]);
    assert(Seq::<char>::empty() + v =~= v);
}

/// A simple value reads back trimmed, from a plain block and from a code block.
proof fn lemma_simple_value(v: Seq<char>)
    requires
        simple_value(v),
    ensures
        plain_lines_ok(v),
        code_lines_ok(v),
        plain_value(v) == trim(v),
        code_value(v) == trim(v),
{
    reveal_strlit("#");
    reveal_strlit("# ");
    reveal_strlit("## ");
    reveal_strlit("```");
    lemma_one_line(v);
    let t = trim(v);
    assert(!ends_plain_block(v)) by {
        if starts_with(t, "## "@) {
            assert(t.subrange(0, 1) =~= "#"@);
        }
        if starts_with(t, "# "@) {
            assert(t.subrange(0, 1) =~= "#"@);
        }
    }
    assert(value_lines(v).map_values(|l: Seq<char>| trim(l)) =~= seq![t]);
    crate::text::lemma_unlines_one(t);
    crate::text::lemma_trim_append_ws(t, '\n');
    crate::text::lemma_trim_idempotent(v);
    assert(read_lines(value_lines(v)) =~= seq![strip_cr(v)]);
    crate::text::lemma_unlines_one(strip_cr(v));
    crate::text::lemma_trim_append_ws(strip_cr(v), '\n');
    crate::text::lemma_trim_strip_cr(v);
}

/// A simple entry reads back as one section.
proof fn lemma_simple_reads_back(md: Md)
    requires
        simple_entry(md),
    ensures
        reads_back(md),
        entry_section(md, seq![], RecordType::Command, 0, 0).title == Some(trim(or_none(md.title.deep_view()))),
        marker_value(plain_value(or_none(md.message.deep_view()))) == Some(trim(or_none(md.message.deep_view()))),
        nonblank(code_value(join_words(md.command.deep_view(), " "@))) == Some(
            trim(join_words(md.command.deep_view(), " "@)),
        ),
        nonblank(code_value(or_none(md.result.deep_view()))) == Some(trim(or_none(md.result.deep_view()))),
        marker_value(plain_value(or_none(md.tag.deep_view()))) == Some(trim(or_none(md.tag.deep_view()))),
{
    reveal_strlit("#");
    reveal_strlit("# ");
    reveal_strlit("batch");
    reveal_strlit("pty");
    let t = or_none(md.title.deep_view());
    let m = or_none(md.message.deep_view());
    let c = join_words(md.command.deep_view(), " "@);
    let r = or_none(md.result.deep_view());
    let g = or_none(md.tag.deep_view());
    lemma_simple_value(m);
    lemma_simple_value(c);
    lemma_simple_value(r);
    lemma_simple_value(g);
    // The title does not open with the header marker.
    let te = trim_end(t);
    lemma_trim_end_prefix(t);
    if starts_with(te, "# "@) {
        assert(te.subrange(0, 2)[0] == '#');
        assert(te[0] == '#');
        assert(te[0] == t.take(te.len() as int)[0]);
        assert(t[0] == '#');
        assert(trim_start(t) == t);
        assert(trim(t) == te);
        assert(trim(t).subrange(0, 1) =~= "#"@);
    }
    assert(mode_word(md.mode@)) by {
        assert forall|i: int| 0 <= i < md.mode@.len() implies !is_ws(#[trigger] md.mode@[i]) by {
            if md.mode@ == "batch"@ {
                assert(md.mode@[i] == "batch"@[i]);
            } else {
                assert(md.mode@[i] == "pty"@[i]);
            }
        }
    }
}

/// The values of a section that do not depend on where it stands.
pub open spec fn same_values(a: RecordView, b: RecordView) -> bool {
    &&& a.title == b.title
    &&& a.message == b.message
    &&& a.command == b.command
    &&& a.mode == b.mode
    &&& a.result == b.result
    &&& a.tags == b.tags
}

/// The sections of entries, one per entry in order, each numbered by its
/// position and holding its entry's values.
proof fn lemma_entries_sections_each(mds: Seq<Md>, path: Seq<char>, rt: RecordType, index: int, start: int)
    ensures
        entries_sections(mds, path, rt, index, start).len() == mds.len(),
        forall|j: int|
            0 <= j < mds.len() ==> (#[trigger] entries_sections(mds, path, rt, index, start)[j]).index == index + j
                && same_values(entries_sections(mds, path, rt, index, start)[j], entry_section(mds[j], path, rt, 0, 0)),
    decreases mds.len(),
{
    if mds.len() > 0 {
        let rest = mds.drop_first();
        let s2 = start + md_lines(mds[0]).len();
        lemma_entries_sections_each(rest, path, rt, index + 1, s2);
        let es = entries_sections(mds, path, rt, index, start);
        assert forall|j: int| 0 <= j < mds.len() implies (#[trigger] es[j]).index == index + j && same_values(
            es[j],
            entry_section(mds[j], path, rt, 0, 0),
        ) by {
            if j > 0 {
                assert(es[j] == entries_sections(rest, path, rt, index + 1, s2)[j - 1]);
                assert(rest[j - 1] == mds[j]);
            }
        }
    }
}

/// Recorded entries of plain one-line values read back as written: a file
/// the entries of `mds` were appended to reads as one section per entry, in
/// order, numbered from zero, with the title, message, command (its words
/// joined by spaces), result and tag line trimmed, the mode as written, and
/// the tag line split at commas into trimmed tags, whenever each entry is a
/// `simple_entry`.
pub proof fn law_recorded_entries_read_as_written(mds: Seq<Md>, path: Seq<char>, rt: RecordType)
    requires
        forall|i: int| 0 <= i < mds.len() ==> simple_entry(#[trigger] mds[i]),
    ensures
        sections_of(entries_text(mds), path, rt).len() == mds.len(),
        forall|j: int|
            0 <= j < mds.len() ==> {
                let v = #[trigger] sections_of(entries_text(mds), path, rt)[j];
                let md = mds[j];
                &&& v.index == j
                &&& v.title == Some(trim(or_none(md.title.deep_view())))
                &&& v.message == Some(trim(or_none(md.message.deep_view())))
                &&& v.command == Some(trim(join_words(md.command.deep_view(), " "@)))
                &&& v.mode == Some(md.mode@)
                &&& v.result == Some(trim(or_none(md.result.deep_view())))
                &&& v.tags == tag_list(or_none(md.tag.deep_view()))
            },
{
    assert forall|i: int| 0 <= i < mds.len() implies reads_back(#[trigger] mds[i]) by {
        lemma_simple_reads_back(mds[i]);
    }
    law_entries_read_back(mds, path, rt);
    lemma_entries_sections_each(mds, path, rt, 0, 0);
    let secs = sections_of(entries_text(mds), path, rt);
    assert forall|j: int| 0 <= j < mds.len() implies {
        let v = #[trigger] secs[j];
        let md = mds[j];
        &&& v.index == j
        &&& v.title == Some(trim(or_none(md.title.deep_view())))
        &&& v.message == Some(trim(or_none(md.message.deep_view())))
        &&& v.command == Some(trim(join_words(md.command.deep_view(), " "@)))
        &&& v.mode == Some(md.mode@)
        &&& v.result == Some(trim(or_none(md.result.deep_view())))
        &&& v.tags == tag_list(or_none(md.tag.deep_view()))
    } by {
        let md = mds[j];
        lemma_simple_reads_back(md);
        crate::feature::search::executor::common::lemma_tag_list_trim(or_none(md.tag.deep_view()));
    }
}

/// A section shown as an entry reads back as that section's values: the text
/// `render_section` gives for a section with a command and a mode, read as a
/// file, is one section with the title trimmed, the message, command, result
/// and tags (joined with commas) as their blocks give them back, and the
/// mode, whenever those values read back as one section.
pub proof fn law_shown_section_reads_back(r: RecordView, path: Seq<char>, rt: RecordType)
    requires
        r.command is Some,
        r.mode is Some,
        header_title(or_none(r.title)),
        plain_lines_ok(or_none(r.message)),
        code_lines_ok(r.command->Some_0),
        mode_word(r.mode->Some_0),
        code_lines_ok(or_none(r.result)),
        plain_lines_ok(join_words(r.tags, ","@)),
    ensures
        ({
            let text = crate::feature::search::executor::common::spec_render_section(r);
            let g = join_words(r.tags, ","@);
            sections_of(text + "\n"@, path, rt) == seq![
                section_record(
                    path,
                    rt,
                    0,
                    0,
                    lines(text + "\n"@).len() as int,
                    trim(or_none(r.title)),
                    SectionFields {
                        message: marker_value(plain_value(or_none(r.message))),
                        command: nonblank(code_value(r.command->Some_0)),
                        mode: r.mode,
                        result: nonblank(code_value(or_none(r.result))),
                        tags: apply_tags(seq![], marker_value(plain_value(g))),
                    },
                ),
            ]
        }),
{
    let t = or_none(r.title);
    let m = or_none(r.message);
    let c = r.command->Some_0;
    let mo = r.mode->Some_0;
    let res = or_none(r.result);
    let g = join_words(r.tags, ","@);
    let text = crate::feature::search::executor::common::spec_render_section(r);
    assert(text == record_text(t, m, Some(c), Some(mo), res, g));
    lemma_entry_layout(t, m, c, mo, res, g);
    lemma_entry_lines_one_line(t, m, c, mo, res, g);
    let raw = entry_lines(t, m, c, mo, res, g);
    crate::text::lemma_lines_unlines_cr(raw);
    let ls = read_lines(raw);
    assert(ls.subrange(0, ls.len() as int) =~= ls);
    lemma_entry_sections_at(ls, 0, 0, t, m, c, mo, res, g, path, rt);
    assert(sections_from(ls, ls.len() as int, 1, path, rt) =~= Seq::<RecordView>::empty());
    assert(seq![section_record(
        path,
        rt,
        0,
        0,
        raw.len() as int,
        trim(t),
        SectionFields {
            message: marker_value(plain_value(m)),
            command: nonblank(code_value(c)),
            mode: Some(mo),
            result: nonblank(code_value(res)),
            tags: apply_tags(seq![], marker_value(plain_value(g))),
        },
    )] + Seq::<RecordView>::empty() =~= seq![section_record(
        path,
        rt,
        0,
        0,
        raw.len() as int,
        trim(t),
        SectionFields {
            message: marker_value(plain_value(m)),
            command: nonblank(code_value(c)),
            mode: Some(mo),
            result: nonblank(code_value(res)),
            tags: apply_tags(seq![], marker_value(plain_value(g))),
        },
    )]);
}

} // verus!
