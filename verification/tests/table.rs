use ors::feature::search::executor::common::Record;
use ors::feature::search::table::md_records::{kind_text, opt_string, print_md_table};
use ors::feature::search::table::section_records::print_section_table;
use ors::feature::search::table::{pad_display_width, print_table, wrap, CellStyle, TableLine};
use ors::ors_type::{RecordType, UnitType};

fn chars(s: &str) -> Vec<char> {
    s.chars().collect()
}

fn strings(v: &[Vec<char>]) -> Vec<String> {
    v.iter().map(|l| l.iter().collect()).collect()
}

fn record(index: usize, title: &str, count: Option<usize>) -> Record {
    Record {
        index,
        start_line: None,
        end_line: None,
        path: format!("/r/commands/{}.md", title),
        unit_type: UnitType::MdFile,
        record_type: RecordType::Command,
        count,
        title: Some(title.to_string()),
        message: None,
        command: None,
        mode: None,
        result: None,
        tags: vec![],
    }
}

/// Each line as its cells' texts and styles; `None` for a blank line and
/// the width for a rule.
fn cells(lines: &[TableLine]) -> Vec<Result<Vec<(String, CellStyle)>, Option<usize>>> {
    lines
        .iter()
        .map(|l| match l {
            TableLine::Blank => Err(None),
            TableLine::Rule(n) => Err(Some(*n)),
            TableLine::Row(cs) => Ok(cs.iter().map(|c| (c.text.clone(), c.style)).collect()),
        })
        .collect()
}

#[test]
fn wrap_breaks_at_the_width() {
    assert_eq!(strings(&wrap(&chars("abcdef"), 4)), vec!["abcd", "ef"]);
    assert_eq!(strings(&wrap(&chars("abcd"), 4)), vec!["abcd"]);
    assert_eq!(strings(&wrap(&chars(""), 4)), Vec::<String>::new());
    assert_eq!(strings(&wrap(&chars("abc"), 0)), Vec::<String>::new());
}

#[test]
fn wrap_counts_wide_characters_twice() {
    assert_eq!(strings(&wrap(&chars("日本語"), 4)), vec!["日本", "語"]);
    assert_eq!(strings(&wrap(&chars("a日本"), 4)), vec!["a日", "本"]);
}

#[test]
fn wrap_starts_with_an_empty_line_when_the_first_character_is_too_wide() {
    assert_eq!(strings(&wrap(&chars("日a"), 1)), vec!["", "日", "a"]);
}

#[test]
fn wrapped_lines_join_back_to_the_text() {
    let text = "the quick brown fox 日本語 jumps";
    for width in 1..12 {
        let joined: String = strings(&wrap(&chars(text), width)).concat();
        assert_eq!(joined, text);
    }
}

#[test]
fn pad_fills_to_the_display_width() {
    let s: String = pad_display_width(&chars("ab"), 5).into_iter().collect();
    assert_eq!(s, "ab   ");
    let s: String = pad_display_width(&chars("日本"), 5).into_iter().collect();
    assert_eq!(s, "日本 ");
    let s: String = pad_display_width(&chars("abcdef"), 3).into_iter().collect();
    assert_eq!(s, "abcdef");
}

#[test]
fn table_columns_follow_the_ratios() {
    let headers = vec!["A".to_string(), "B".to_string()];
    let rows = vec![vec!["xyz".to_string(), "12345".to_string()]];
    let lines = print_table(&headers, &rows, &vec![1, 1], 9);
    // Six usable columns shared one to one: three each.
    let got = cells(&lines);
    assert_eq!(got.len(), 5);
    assert_eq!(got[0], Err(None));
    assert_eq!(got[1], Ok(vec![("A  ".to_string(), CellStyle::Header), ("B  ".to_string(), CellStyle::Header)]));
    assert_eq!(got[2], Err(Some(9)));
    assert_eq!(got[3], Ok(vec![("xyz".to_string(), CellStyle::Index), ("123".to_string(), CellStyle::Kind)]));
    assert_eq!(got[4], Ok(vec![("   ".to_string(), CellStyle::Index), ("45 ".to_string(), CellStyle::Kind)]));
}

#[test]
fn table_rows_of_empty_cells_print_nothing() {
    let headers = vec!["A".to_string()];
    let rows = vec![vec!["".to_string()]];
    let lines = print_table(&headers, &rows, &vec![1], 4);
    assert_eq!(cells(&lines), vec![Err(None), Ok(vec![("A   ".to_string(), CellStyle::Header)]), Err(Some(4))]);
}

#[test]
fn third_columns_are_body_cells() {
    let headers = vec!["a".to_string(), "b".to_string(), "c".to_string()];
    let rows = vec![vec!["1".to_string(), "2".to_string(), "3".to_string()]];
    let lines = print_table(&headers, &rows, &vec![1, 1, 1], 9);
    let got = cells(&lines);
    assert_eq!(
        got[3],
        Ok(vec![
            ("1".to_string(), CellStyle::Index),
            ("2".to_string(), CellStyle::Kind),
            ("3".to_string(), CellStyle::Body)
        ])
    );
}

#[test]
fn md_table_shows_index_type_title_and_count() {
    let recs = vec![record(1, "nmap", Some(3)), record(2, "ls", None)];
    let lines = print_md_table(&recs, 120);
    // 111 usable columns by 1:1:6:1 give 12, 12, 74 and 12.
    let got = cells(&lines);
    assert_eq!(got.len(), 5);
    assert_eq!(got[2], Err(Some(120)));
    let head = got[1].clone().unwrap();
    assert_eq!(head.iter().map(|(t, _)| t.len()).collect::<Vec<_>>(), vec![12, 12, 74, 12]);
    assert_eq!(head[0].0.trim_end(), "Index");
    assert_eq!(head[3].0.trim_end(), "Count");
    let row = got[3].clone().unwrap();
    let texts: Vec<String> = row.iter().map(|(t, _)| t.trim_end().to_string()).collect();
    assert_eq!(texts, vec!["1", "cmd / MD", "nmap", "3"]);
    let row = got[4].clone().unwrap();
    let texts: Vec<String> = row.iter().map(|(t, _)| t.trim_end().to_string()).collect();
    assert_eq!(texts, vec!["2", "cmd / MD", "ls", ""]);
}

#[test]
fn section_table_shows_index_type_title_and_command() {
    let mut r = record(4, "Scan", None);
    r.unit_type = UnitType::Section;
    r.record_type = RecordType::Track;
    r.command = Some("nmap -sV host".to_string());
    let lines = print_section_table(&vec![r], 120);
    let got = cells(&lines);
    assert_eq!(got[2], Err(Some(120)));
    let row = got[3].clone().unwrap();
    let texts: Vec<String> = row.iter().map(|(t, _)| t.trim_end().to_string()).collect();
    assert_eq!(texts[0], "4");
    assert_eq!(texts[1], "trk / S");
    assert_eq!(texts[2], "Scan");
    assert!(texts[3].starts_with("nmap"));
}

#[test]
fn kind_and_optional_text() {
    let mut r = record(0, "x", None);
    r.record_type = RecordType::Writeup;
    assert_eq!(kind_text(&r), "wu / MD");
    assert_eq!(opt_string(&None), "");
    assert_eq!(opt_string(&Some("t".to_string())), "t");
}
