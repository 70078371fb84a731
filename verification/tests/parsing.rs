use ors::feature::search::executor::common::{
    collect_records, collect_sections, collect_writeup, count_section, infer_record_type, read_code_block,
    read_plain_block, MdFile, Record,
};
use ors::ors_type::{RecordType, UnitType};
use ors::paths::{is_md_path, path_stem};
use ors::text::{split_lines, split_on, split_words, to_chars, trim_chars};

fn file_record(path: &str, rt: RecordType) -> Record {
    Record {
        index: 0,
        start_line: None,
        end_line: None,
        path: path.to_string(),
        unit_type: UnitType::MdFile,
        record_type: rt,
        count: None,
        title: None,
        message: None,
        command: None,
        mode: None,
        result: None,
        tags: vec![],
    }
}

fn chars(s: &str) -> Vec<char> {
    s.chars().collect()
}

fn lines_of(s: &str) -> Vec<Vec<char>> {
    split_lines(&to_chars(s))
}

const SAMPLE: &str = "intro\n# First\n## Message\nhello\n## Command\n```bash batch\nls -la\n```\n## Result\n```\nout\n```\n## Tag\na, b\n# Second\n## Message\n{none}\n";

#[test]
fn lines_split_like_str_lines() {
    let got = lines_of("a\nb\r\n\nc\r");
    assert_eq!(got, vec![chars("a"), chars("b"), chars(""), chars("c\r")]);
    assert!(lines_of("").is_empty());
    assert_eq!(lines_of("\n"), vec![chars("")]);
    assert_eq!(lines_of("x\n"), vec![chars("x")]);
}

#[test]
fn split_and_trim_follow_std() {
    assert_eq!(split_on(&chars("a,,b,"), ','), vec![chars("a"), chars(""), chars("b"), chars("")]);
    assert_eq!(split_words(&chars("  ls \t -la\u{3000}x ")), vec![chars("ls"), chars("-la"), chars("x")]);
    assert_eq!(trim_chars(&chars("\u{a0} hi \n")), chars("hi"));
}

#[test]
fn sections_are_read_with_their_blocks() {
    let md = file_record("/r/commands/ls.md", RecordType::Command);
    let secs = collect_sections(&md, SAMPLE);
    assert_eq!(secs.len(), 2);
    let a = &secs[0];
    assert_eq!(a.index, 0);
    assert_eq!(a.start_line, Some(1));
    assert_eq!(a.end_line, Some(14));
    assert_eq!(a.title.as_deref(), Some("First"));
    assert_eq!(a.message.as_deref(), Some("hello"));
    assert_eq!(a.command.as_deref(), Some("ls -la"));
    assert_eq!(a.mode.as_deref(), Some("batch"));
    assert_eq!(a.result.as_deref(), Some("out"));
    assert_eq!(a.tags, vec!["a".to_string(), "b".to_string()]);
    assert_eq!(a.unit_type, UnitType::Section);
    assert_eq!(a.record_type, RecordType::Command);
    assert_eq!(a.path, "/r/commands/ls.md");
    let b = &secs[1];
    assert_eq!(b.index, 1);
    assert_eq!(b.start_line, Some(14));
    assert_eq!(b.end_line, Some(17));
    assert_eq!(b.title.as_deref(), Some("Second"));
    assert_eq!(b.message, None);
    assert_eq!(b.command, None);
    assert!(b.tags.is_empty());
}

#[test]
fn sections_tile_the_file() {
    let md = file_record("/r/commands/ls.md", RecordType::Command);
    let secs = collect_sections(&md, SAMPLE);
    for k in 0..secs.len() - 1 {
        assert_eq!(secs[k].end_line, secs[k + 1].start_line);
    }
    assert_eq!(secs.last().unwrap().end_line, Some(SAMPLE.lines().count()));
}

#[test]
fn no_sections_without_headers() {
    let md = file_record("/r/commands/x.md", RecordType::Command);
    assert!(collect_sections(&md, "").is_empty());
    assert!(collect_sections(&md, "text\n## Message\nhi\n").is_empty());
    // a bare "# " is not a section once trimmed
    assert!(collect_sections(&md, "# \nx\n").is_empty());
}

#[test]
fn header_title_drops_repeated_markers() {
    let md = file_record("/r/commands/x.md", RecordType::Command);
    let secs = collect_sections(&md, "  # #  Deep  \n");
    assert_eq!(secs.len(), 1);
    assert_eq!(secs[0].title.as_deref(), Some("Deep"));
}

#[test]
fn code_block_takes_mode_and_keeps_body_lines() {
    let ls = lines_of("noise\n``` bash pty extra\n  # keep\n  body\n```\nafter");
    let (mode, body, next) = read_code_block(&ls, 0);
    assert_eq!(mode.as_deref(), Some("pty"));
    assert_eq!(body.as_deref(), Some("# keep\n  body"));
    assert_eq!(next, 5);
    let (mode, body, next) = read_code_block(&lines_of("```\n```\n"), 0);
    assert_eq!(mode, None);
    assert_eq!(body, None);
    assert_eq!(next, 2);
}

#[test]
fn unclosed_code_block_runs_to_the_end() {
    let ls = lines_of("```bash batch\nls\n# Next\n");
    let (mode, body, next) = read_code_block(&ls, 0);
    assert_eq!(mode.as_deref(), Some("batch"));
    assert_eq!(body.as_deref(), Some("ls\n# Next"));
    assert_eq!(next, 3);
}

#[test]
fn plain_block_stops_at_headings() {
    let ls = lines_of("  one \ntwo\n## Next\n");
    let (v, next) = read_plain_block(&ls, 0);
    assert_eq!(v.as_deref(), Some("one\ntwo"));
    assert_eq!(next, 2);
    let ls = lines_of("{none}\n# S\n");
    let (v, next) = read_plain_block(&ls, 0);
    assert_eq!(v, None);
    assert_eq!(next, 1);
}

#[test]
fn count_section_counts_header_lines() {
    assert_eq!(count_section(SAMPLE), 2);
    assert_eq!(count_section(""), 0);
    // counted on leading whitespace only, also inside code blocks
    assert_eq!(count_section("# \n```\n# c\n```\n"), 2);
}

#[test]
fn writeup_takes_stem_marker_and_tags() {
    let rec = file_record("/r/writeups/box.v1.md", RecordType::Writeup);
    let w = collect_writeup(&rec, "# Box\n## Tag\nweb , linux\n# x\n## Tag\n{none}\n");
    assert_eq!(w.title.as_deref(), Some("box.v1"));
    assert_eq!(w.command.as_deref(), Some("/* file */"));
    assert_eq!(w.tags, vec!["web".to_string(), "linux".to_string()]);
    assert_eq!(w.unit_type, UnitType::MdFile);
    assert_eq!(w.message.as_deref(), Some("# Box\n## Tag\nweb , linux\n# x\n## Tag\n{none}\n"));
}

#[test]
fn record_type_comes_from_the_path() {
    assert_eq!(infer_record_type("/r/commands/ls.md"), RecordType::Command);
    assert_eq!(infer_record_type("/r/tracks/t.md"), RecordType::Track);
    assert_eq!(infer_record_type("/r/writeups/w.md"), RecordType::Writeup);
    assert_eq!(infer_record_type("/r/commandsx/a.md"), RecordType::Writeup);
    assert_eq!(infer_record_type("commands/./tracks/a.md"), RecordType::Command);
}

#[test]
fn stems_and_extensions() {
    assert_eq!(path_stem("/r/a.tar.md"), chars("a.tar"));
    assert_eq!(path_stem("/r/.md"), chars(".md"));
    assert_eq!(path_stem("/r/noext"), chars("noext"));
    assert_eq!(path_stem("/"), chars(""));
    assert!(is_md_path("/r/a.md"));
    assert!(is_md_path("a/b/c.md/"));
    assert!(!is_md_path("/r/.md"));
    assert!(!is_md_path("/r/a.mdx"));
    assert!(!is_md_path("/r/a.MD"));
}

#[test]
fn listing_is_sorted_numbered_and_counted() {
    let files = vec![
        MdFile { path: "/r/commands/z.md".to_string(), content: Some("# a\n# b\n".to_string()) },
        MdFile { path: "/r/commands/notes.txt".to_string(), content: None },
        MdFile { path: "/r/commands/a-b.md".to_string(), content: None },
        MdFile { path: "/r/commands/a/b.md".to_string(), content: Some("# only\n".to_string()) },
    ];
    let recs = collect_records(&files);
    let paths: Vec<&str> = recs.iter().map(|r| r.path.as_str()).collect();
    // sorted by components: "a" < "a-b" < "z.md"
    assert_eq!(paths, vec!["/r/commands/a/b.md", "/r/commands/a-b.md", "/r/commands/z.md"]);
    for (i, r) in recs.iter().enumerate() {
        assert_eq!(r.index, i);
        assert_eq!(r.unit_type, UnitType::MdFile);
        assert_eq!(r.record_type, RecordType::Command);
    }
    assert_eq!(recs[0].count, Some(1));
    assert_eq!(recs[1].count, Some(0));
    assert_eq!(recs[2].count, Some(2));
    assert_eq!(recs[0].title.as_deref(), Some("b"));
    assert_eq!(recs[1].title.as_deref(), Some("a-b"));
}

#[test]
fn count_matches_sections_when_headers_are_well_placed() {
    let rec = file_record("/r/commands/x.md", RecordType::Command);
    let well = "intro\n# a\n## Command\n```bash batch\nls\n```\n  # b\ntext\n";
    assert_eq!(count_section(well), 2);
    assert_eq!(collect_sections(&rec, well).len(), 2);
    // a counted line inside a code block opens no section
    let not_well = "# a\n## Command\n```\n# b\n```\n";
    assert_eq!(count_section(not_well), 2);
    assert_eq!(collect_sections(&rec, not_well).len(), 1);
}
