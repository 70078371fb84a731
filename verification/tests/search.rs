use ors::cli::{SearchArgs, SearchCommands};
use ors::error::OrsError;
use ors::feature::record::executor::Executor;
use ors::feature::search::dispatch;
use ors::feature::search::executor::command::Command;
use ors::feature::search::executor::common::{MdFile, Record};
use ors::feature::search::executor::flag::{del, open, run};
use ors::feature::search::executor::query::Query;
use ors::feature::search::executor::writeup::Writeup;
use ors::feature::search::executor::{RecordStore, SearchAction, SearchExecutor};
use ors::ors_type::{RecordType, UnitType};

const LS: &str = "# List files\n## Message\nshow all\n## Command\n```bash batch\nls -la\n```\n## Result\n```\ntotal 0\n```\n## Tag\nfs, Shell\n# Ping\n## Command\n```bash pty\nping -c 3 8.8.8.8\n```\n## Tag\n{none}\n";
const TRACK: &str = "# Scan host\n## Command\n```bash batch\nnmap -sV host\n```\n";
const WRITEUP: &str = "# Box\nnotes\n## Tag\nWeb, ls-tricks\n";

fn store() -> RecordStore {
    RecordStore {
        commands: vec![
            MdFile { path: "/r/commands/ls.md".to_string(), content: Some(LS.to_string()) },
            MdFile { path: "/r/commands/gone.md".to_string(), content: None },
        ],
        tracks: vec![MdFile { path: "/r/tracks/htb.md".to_string(), content: Some(TRACK.to_string()) }],
        writeups: vec![MdFile { path: "/r/writeups/box.md".to_string(), content: Some(WRITEUP.to_string()) }],
    }
}

fn section(command: Option<&str>, mode: Option<&str>) -> Record {
    Record {
        index: 0,
        start_line: Some(0),
        end_line: Some(3),
        path: "/r/commands/x.md".to_string(),
        unit_type: UnitType::Section,
        record_type: RecordType::Command,
        count: None,
        title: Some("t".to_string()),
        message: None,
        command: command.map(|s| s.to_string()),
        mode: mode.map(|s| s.to_string()),
        result: None,
        tags: vec![],
    }
}

fn titles(v: &[Record]) -> Vec<String> {
    v.iter().map(|r| r.title.clone().unwrap_or_default()).collect()
}

#[test]
fn command_listing_and_sections() {
    let st = store();
    let c = Command::new(vec![], false, false, false, false, false);
    match c.run(&st) {
        Ok(SearchAction::MdTable(v)) => {
            assert_eq!(titles(&v), vec!["gone", "ls"]);
            assert_eq!(v[0].count, Some(0));
            assert_eq!(v[1].count, Some(2));
        },
        _ => panic!("expected a file table"),
    }
    let c = Command::new(vec![1], false, false, false, false, false);
    match c.run(&st) {
        Ok(SearchAction::SectionTable(v)) => assert_eq!(titles(&v), vec!["List files", "Ping"]),
        _ => panic!("expected a section table"),
    }
    let c = Command::new(vec![0], false, false, false, false, false);
    assert!(matches!(c.run(&st), Err(OrsError::ReadFailed)));
}

#[test]
fn command_section_actions() {
    let st = store();
    let c = Command::new(vec![1, 1], false, false, false, false, false);
    match c.run(&st) {
        Ok(SearchAction::ShowSection(s)) => assert_eq!(s.command.as_deref(), Some("ping -c 3 8.8.8.8")),
        _ => panic!("expected a section"),
    }
    let c = Command::new(vec![1, 1], true, false, false, false, false);
    match c.run(&st) {
        Ok(SearchAction::Run(Executor::Pty(p))) => {
            assert_eq!(p.command, "ping");
            assert_eq!(p.args, vec!["-c", "3", "8.8.8.8"]);
        },
        _ => panic!("expected a pty run"),
    }
    let c = Command::new(vec![1, 1], false, true, false, false, false);
    match c.run(&st) {
        Ok(SearchAction::DeleteLines { path, start, end }) => {
            assert_eq!(path, "/r/commands/ls.md");
            assert_eq!((start, end), (13, 20));
        },
        _ => panic!("expected a deletion"),
    }
    let c = Command::new(vec![1, 1], false, false, true, false, false);
    match c.run(&st) {
        Ok(SearchAction::Open(args)) => assert_eq!(args, vec!["+14", "/r/commands/ls.md"]),
        _ => panic!("expected an editor"),
    }
    let c = Command::new(vec![1, 0], false, false, false, true, false);
    assert!(matches!(c.run(&st), Ok(SearchAction::CatSection(_))));
    let c = Command::new(vec![1], false, false, false, true, false);
    assert!(matches!(c.run(&st), Ok(SearchAction::CatMd(p)) if p == "/r/commands/ls.md"));
    let c = Command::new(vec![1, 7], false, false, false, false, false);
    assert!(matches!(c.run(&st), Err(OrsError::InvalidSectionIndex)));
    let c = Command::new(vec![1, 0, 0], false, false, false, false, false);
    assert!(matches!(c.run(&st), Err(OrsError::TooManyNumbers)));
}

#[test]
fn command_rejects_unknown_file_number() {
    let st = store();
    assert!(!Command::new(vec![2], false, false, false, false, false).accepts(&st));
    assert!(Command::new(vec![1], false, false, false, false, false).accepts(&st));
    assert!(Command::new(vec![], false, false, false, false, true).accepts(&st));
}

#[test]
fn track_search_reads_tracks() {
    let st = store();
    let c = Command::new(vec![0], false, false, false, false, true);
    match c.run(&st) {
        Ok(SearchAction::SectionTable(v)) => {
            assert_eq!(titles(&v), vec!["Scan host"]);
            assert_eq!(v[0].record_type, RecordType::Track);
        },
        _ => panic!("expected a section table"),
    }
}

#[test]
fn writeup_search() {
    let st = store();
    assert!(matches!(Writeup::new(vec![0], false).run(&st), Ok(SearchAction::ShowMd(p)) if p == "/r/writeups/box.md"));
    assert!(matches!(Writeup::new(vec![0], true).run(&st), Ok(SearchAction::Open(a)) if a == vec!["/r/writeups/box.md"]));
    assert!(matches!(Writeup::new(vec![0, 1], false).run(&st), Err(OrsError::TooManyArguments)));
    assert!(matches!(Writeup::new(vec![], false).run(&st), Ok(SearchAction::MdTable(v)) if v.len() == 1));
    assert!(!Writeup::new(vec![3], false).accepts(&st));
}

fn query_store() -> RecordStore {
    let mut st = store();
    st.commands.remove(1);
    st
}

#[test]
fn query_finds_titles_commands_and_tags_in_any_case() {
    let st = query_store();
    let q = Query::new("LS".to_string(), None, false, false, false);
    match q.run(&st) {
        Ok(SearchAction::SectionTable(v)) => {
            // "ls -la" command, then the writeup's "ls-tricks" tag
            assert_eq!(titles(&v), vec!["List files", "box"]);
            assert_eq!(v[0].index, 0);
            assert_eq!(v[1].index, 1);
            assert_eq!(v[1].record_type, RecordType::Writeup);
        },
        _ => panic!("expected a table"),
    }
    let q = Query::new("shell".to_string(), None, false, false, false);
    assert!(matches!(q.run(&st), Ok(SearchAction::SectionTable(v)) if titles(&v) == vec!["List files"]));
    let q = Query::new("nothing-here".to_string(), None, false, false, false);
    assert!(matches!(q.run(&st), Ok(SearchAction::SectionTable(v)) if v.is_empty()));
}

#[test]
fn query_reads_writeup_text_but_not_its_file_name() {
    let st = query_store();
    // the writeup's text holds "notes"
    let q = Query::new("NOTES".to_string(), None, false, false, false);
    assert!(matches!(q.run(&st), Ok(SearchAction::SectionTable(v)) if titles(&v) == vec!["box"]));
    let st = RecordStore {
        commands: vec![],
        tracks: vec![],
        writeups: vec![MdFile { path: "/r/writeups/zz9.md".to_string(), content: Some("hello\n".to_string()) }],
    };
    // the file's stem is not searched
    let q = Query::new("zz9".to_string(), None, false, false, false);
    assert!(matches!(q.run(&st), Ok(SearchAction::SectionTable(v)) if v.is_empty()));
    let q = Query::new("ELL".to_string(), None, false, false, false);
    assert!(matches!(q.run(&st), Ok(SearchAction::SectionTable(v)) if v.len() == 1));
}

#[test]
fn query_reads_section_messages() {
    let st = query_store();
    // "show all" is only the message of the "List files" section
    let q = Query::new("Show ALL".to_string(), None, false, false, false);
    assert!(matches!(q.run(&st), Ok(SearchAction::SectionTable(v)) if titles(&v) == vec!["List files"]));
}

#[test]
fn query_actions() {
    let st = query_store();
    let q = Query::new("ls".to_string(), Some(1), false, false, false);
    assert!(matches!(q.run(&st), Ok(SearchAction::ShowMd(p)) if p == "/r/writeups/box.md"));
    let q = Query::new("ls".to_string(), Some(1), false, true, false);
    assert!(matches!(q.run(&st), Ok(SearchAction::DeleteWriteup(p)) if p == "/r/writeups/box.md"));
    let q = Query::new("ls".to_string(), Some(0), false, true, false);
    assert!(matches!(q.run(&st), Ok(SearchAction::DeleteLines { start: 0, end: 13, .. })));
    let q = Query::new("ls".to_string(), Some(0), true, false, false);
    assert!(matches!(q.run(&st), Ok(SearchAction::Run(Executor::Batch(b))) if b.command == "ls" && b.args == vec!["-la"]));
    let q = Query::new("ls".to_string(), Some(0), false, false, true);
    assert!(matches!(q.run(&st), Ok(SearchAction::Open(a)) if a == vec!["/r/commands/ls.md"]));
    let q = Query::new("ls".to_string(), Some(0), false, false, false);
    assert!(matches!(q.run(&st), Ok(SearchAction::ShowSection(s)) if s.title.as_deref() == Some("List files")));
    let q = Query::new("ls".to_string(), Some(2), false, false, false);
    assert!(matches!(q.run(&st), Err(OrsError::InvalidSectionIndex)));
}

#[test]
fn query_fails_on_unread_file() {
    let st = store();
    let q = Query::new("ls".to_string(), None, false, false, false);
    assert!(matches!(q.run(&st), Err(OrsError::ReadFailed)));
}

#[test]
fn dispatch_runs_the_matching_executor() {
    let st = query_store();
    let args = SearchArgs { command: SearchCommands::Track { number: vec![0], run: false, del: false, open: false, cat: false } };
    assert!(dispatch::accepts(&args, &st));
    assert!(matches!(dispatch::run(args, &st), Ok(SearchAction::SectionTable(v)) if v.len() == 1));
    let args = SearchArgs { command: SearchCommands::Query { word: "nmap".to_string(), number: None, run: false, del: false, open: false } };
    let s = dispatch::sources(&args);
    assert!(s.commands && s.tracks && s.writeups);
    assert!(matches!(dispatch::run(args, &st), Ok(SearchAction::SectionTable(v)) if titles(&v) == vec!["Scan host"]));
    let args = SearchArgs { command: SearchCommands::Writeup { number: vec![5], open: false } };
    assert!(!dispatch::accepts(&args, &st));
    let s = dispatch::sources(&args);
    assert!(!s.commands && !s.tracks && s.writeups);
}

#[test]
fn run_flag_errors() {
    assert!(matches!(run::exe(&section(None, Some("batch"))), Err(OrsError::NoCommand)));
    assert!(matches!(run::exe(&section(Some(" \t "), Some("batch"))), Err(OrsError::EmptyCommand)));
    assert!(matches!(run::exe(&section(Some("ls"), None)), Err(OrsError::NoMode)));
    assert!(matches!(run::exe(&section(Some("ls"), Some("bash"))), Err(OrsError::InvalidMode(m)) if m == "bash"));
    match run::exe(&section(Some("  echo   a b "), Some("batch"))) {
        Ok(Executor::Batch(b)) => {
            assert_eq!(b.command, "echo");
            assert_eq!(b.args, vec!["a", "b"]);
        },
        _ => panic!("expected a batch run"),
    }
}

#[test]
fn open_flag_jumps_to_the_header_line() {
    let p = "/r/t.md".to_string();
    assert_eq!(open::exe_at_line(&p, Some(0)), vec!["+1", "/r/t.md"]);
    assert_eq!(open::exe_at_line(&p, Some(41)), vec!["+42", "/r/t.md"]);
    assert_eq!(open::exe(&p), vec!["/r/t.md"]);
}

#[test]
fn delete_flag_removes_counted_lines() {
    let c = "l1\nl2\nl3\nl4\n";
    assert_eq!(del::exe(Some(c), 2, 3).unwrap(), "l1\nl4\n");
    assert_eq!(del::exe(Some(c), 1, 4).unwrap(), "");
    assert_eq!(del::exe(Some("a\r\nb"), 1, 1).unwrap(), "b\n");
    assert!(matches!(del::exe(Some(c), 0, 2), Err(OrsError::InvalidLineRange)));
    assert!(matches!(del::exe(Some(c), 3, 2), Err(OrsError::InvalidLineRange)));
    assert!(matches!(del::exe(Some(c), 2, 5), Err(OrsError::RangeExceedsFileLength)));
    assert!(matches!(del::exe(None, 2, 3), Err(OrsError::ReadFailed)));
    assert!(matches!(del::exe(None, 0, 3), Err(OrsError::InvalidLineRange)));
}

#[test]
fn query_lowercases_beyond_ascii() {
    let st = RecordStore {
        commands: vec![MdFile {
            path: "/r/commands/apt.md".to_string(),
            content: Some("# Äpfel zählen\n## Command\n```bash batch\napt list\n```\n".to_string()),
        }],
        tracks: vec![],
        writeups: vec![],
    };
    let q = Query::new("äPFEL".to_string(), None, false, false, false);
    assert!(matches!(q.run(&st), Ok(SearchAction::SectionTable(v)) if titles(&v) == vec!["Äpfel zählen"]));
    let q = Query::new("ZÄHLEN".to_string(), None, false, false, false);
    assert!(matches!(q.run(&st), Ok(SearchAction::SectionTable(v)) if v.len() == 1));
}

#[test]
fn query_word_case_does_not_matter() {
    let st = query_store();
    for word in ["ls", "LS", "Ls"] {
        let q = Query::new(word.to_string(), None, false, false, false);
        assert!(matches!(q.run(&st), Ok(SearchAction::SectionTable(v)) if titles(&v) == vec!["List files", "box"]));
    }
}
