use ors::cli::RecordArgs;
use ors::context::Context;
use ors::error::OrsError;
use ors::feature::record::dispatch;
use ors::feature::record::executor::pty::{
    clean_output, remove_byte, session_step, strip_ansi, SessionAction, SessionEvent, SessionState,
};
use ors::feature::record::executor::{get_track_name, track_banner, Banner, Executor};
use ors::feature::record::md::{join_strings, Md, RECORD_TEMPLATE};
use ors::feature::search::executor::common::{
    collect_sections, convert_image_paths, render_section, viewer_command, Record,
};
use ors::ors_type::{RecordType, UnitType};

fn args(command: &[&str], quiet: bool, pty: bool) -> RecordArgs {
    RecordArgs {
        quiet,
        pty,
        title: Some("List".to_string()),
        message: None,
        tag: Some("fs,shell".to_string()),
        command: command.iter().map(|s| s.to_string()).collect(),
    }
}

fn ctx() -> Context {
    Context::new(Some("/r")).unwrap()
}

fn base(path: &str) -> Record {
    Record {
        index: 0,
        start_line: None,
        end_line: None,
        path: path.to_string(),
        unit_type: UnitType::MdFile,
        record_type: RecordType::Command,
        count: None,
        title: None,
        message: None,
        command: None,
        mode: None,
        result: None,
        tags: vec![],
    }
}

#[test]
fn context_lays_out_the_records_directory() {
    let c = ctx();
    assert_eq!(c.commands_dir, "/r/commands");
    assert_eq!(c.tracks_dir, "/r/tracks");
    assert_eq!(c.writeups_dir, "/r/writeups");
    assert_eq!(c.track_name_file_path, "/r/tracks/.track");
    assert!(matches!(Context::new(None), Err(OrsError::RecordsDirNotSet)));
}

#[test]
fn plan_picks_the_executor_and_runs_quiet_records_too() {
    let p = dispatch::run(&args(&["ls", "-la", "/tmp"], false, false));
    match &p.executor {
        Executor::Batch(b) => {
            assert_eq!(b.command, "ls");
            assert_eq!(b.args, vec!["-la", "/tmp"]);
        },
        Executor::Pty(_) => panic!("expected a batch run"),
    }
    assert_eq!(p.executor.mode(), "batch");
    let p = dispatch::run(&args(&["vim"], true, true));
    match &p.executor {
        Executor::Pty(t) => {
            assert_eq!(t.command, "vim");
            assert!(t.args.is_empty());
        },
        Executor::Batch(_) => panic!("expected a pty run"),
    }
    assert_eq!(p.executor.mode(), "pty");
}

#[test]
fn record_keeps_the_output_read_leniently() {
    let a = args(&["echo", "hi"], false, false);
    let p = dispatch::run(&a);
    let md = dispatch::run_with_executor(&p.executor, a, Some(b"hi \xff\n".to_vec()), Some("htb".to_string()));
    assert_eq!(md.result.as_deref(), Some("hi \u{fffd}\n"));
    assert_eq!(md.mode, "batch");
    assert_eq!(md.title.as_deref(), Some("List"));
    assert_eq!(md.tag.as_deref(), Some("fs,shell"));
    assert_eq!(md.track_name.as_deref(), Some("htb"));
    assert_eq!(md.command, vec!["echo", "hi"]);
}

#[test]
fn quiet_record_keeps_no_output() {
    let a = args(&["echo", "hi"], true, false);
    let p = dispatch::run(&a);
    let md = dispatch::run_with_executor(&p.executor, a, Some(b"hi".to_vec()), None);
    assert_eq!(md.result, None);
    let a = args(&["echo", "hi"], false, false);
    let md = dispatch::run_with_executor(&p.executor, a, None, None);
    assert_eq!(md.result, None);
}

#[test]
fn entry_goes_to_the_command_file_or_the_track_file() {
    let md = Md::new(None, None, vec!["nmap".to_string(), "-sV".to_string()], "batch".to_string(), None, None, None);
    let (path, _) = md.entry(&ctx()).unwrap();
    assert_eq!(path, "/r/commands/nmap.md");
    let md = Md::new(None, None, vec!["nmap".to_string()], "batch".to_string(), None, None, Some("htb".to_string()));
    let (path, _) = md.entry(&ctx()).unwrap();
    assert_eq!(path, "/r/tracks/htb.md");
}

#[test]
fn entry_of_an_empty_command_without_track_fails() {
    let md = Md::new(None, None, vec![], "batch".to_string(), None, None, None);
    assert!(matches!(md.entry(&ctx()), Err(OrsError::CommandEmpty)));
    let md = Md::new(None, None, vec![], "batch".to_string(), None, None, Some("t".to_string()));
    assert!(md.entry(&ctx()).is_ok());
}

#[test]
fn entry_text_fills_the_template() {
    let md = Md::new(
        Some("List files".to_string()),
        None,
        vec!["ls".to_string(), "-la".to_string()],
        "batch".to_string(),
        Some("total 0".to_string()),
        Some("fs,shell".to_string()),
        None,
    );
    let (_, text) = md.entry(&ctx()).unwrap();
    assert!(text.starts_with("# List files\n"));
    assert!(text.contains("## Message\n{none}\n"));
    assert!(text.contains("```bash batch\nls -la\n```"));
    assert!(text.contains("## Result\n```\ntotal 0\n```"));
    assert!(text.contains("## Tag\nfs,shell"));
}

#[test]
fn written_entry_reads_back_as_a_section() {
    let md = Md::new(
        Some("Ping".to_string()),
        Some("check the host".to_string()),
        vec!["ping".to_string(), "-c".to_string(), "1".to_string(), "h".to_string()],
        "pty".to_string(),
        Some("1 packet".to_string()),
        Some("net, icmp".to_string()),
        None,
    );
    let (path, text) = md.entry(&ctx()).unwrap();
    let content = format!("{}\n", text);
    let secs = collect_sections(&base(&path), &content);
    assert_eq!(secs.len(), 1);
    let s = &secs[0];
    assert_eq!(s.title.as_deref(), Some("Ping"));
    assert_eq!(s.message.as_deref(), Some("check the host"));
    assert_eq!(s.command.as_deref(), Some("ping -c 1 h"));
    assert_eq!(s.mode.as_deref(), Some("pty"));
    assert_eq!(s.result.as_deref(), Some("1 packet"));
    assert_eq!(s.tags, vec!["net", "icmp"]);
    assert_eq!(s.start_line, Some(0));
    assert_eq!(s.end_line, Some(17));
    match ors::feature::search::executor::flag::run::exe(s) {
        Ok(Executor::Pty(p)) => {
            assert_eq!(p.command, "ping");
            assert_eq!(p.args, vec!["-c", "1", "h"]);
        },
        _ => panic!("expected a pty run"),
    }
}

#[test]
fn entry_without_optional_parts_reads_back() {
    let md = Md::new(None, None, vec!["id".to_string()], "batch".to_string(), None, None, None);
    let (path, text) = md.entry(&ctx()).unwrap();
    let secs = collect_sections(&base(&path), &format!("{}\n", text));
    assert_eq!(secs.len(), 1);
    let s = &secs[0];
    assert_eq!(s.title.as_deref(), Some("{none}"));
    assert_eq!(s.message, None);
    assert_eq!(s.command.as_deref(), Some("id"));
    assert_eq!(s.mode.as_deref(), Some("batch"));
    assert_eq!(s.result.as_deref(), Some("{none}"));
    assert!(s.tags.is_empty());
    assert_eq!(s.end_line, Some(17));
}

#[test]
fn multi_line_values_read_back() {
    let md = Md::new(
        Some("Scan".to_string()),
        Some("first line\n\nthird line".to_string()),
        vec!["nmap".to_string(), "-p".to_string(), "80".to_string()],
        "batch".to_string(),
        Some("PORT STATE\n80/tcp open  ".trim_end().to_string()),
        Some("net,scan".to_string()),
        None,
    );
    let (path, text) = md.entry(&ctx()).unwrap();
    let secs = collect_sections(&base(&path), &format!("{}\n", text));
    assert_eq!(secs.len(), 1);
    let s = &secs[0];
    assert_eq!(s.message.as_deref(), Some("first line\n\nthird line"));
    assert_eq!(s.result.as_deref(), Some("PORT STATE\n80/tcp open"));
    assert_eq!(s.tags, vec!["net", "scan"]);
    assert_eq!(s.end_line, Some(20));
}

#[test]
fn render_section_shows_missing_parts_as_none() {
    let mut r = base("/r/commands/ls.md");
    r.title = Some("T".to_string());
    r.command = Some("ls".to_string());
    r.mode = Some("batch".to_string());
    r.tags = vec!["a".to_string(), "b".to_string()];
    let text = render_section(&r).unwrap();
    assert!(text.starts_with("# T\n"));
    assert!(text.contains("## Message\n{none}\n"));
    assert!(text.contains("```bash batch\nls\n```"));
    assert!(text.contains("## Result\n```\n{none}\n```"));
    assert!(text.contains("## Tag\na,b"));
}

#[test]
fn template_names_every_part() {
    for part in ["{{ title }}", "{{ message }}", "{{ mode }}", "{{ command }}", "{{ result }}", "{{ tag }}"] {
        assert!(RECORD_TEMPLATE.contains(part));
    }
}

#[test]
fn strings_are_joined_with_the_separator() {
    assert_eq!(join_strings(&vec![], " "), "");
    assert_eq!(join_strings(&vec!["a".to_string()], " "), "a");
    assert_eq!(join_strings(&vec!["a".to_string(), "b".to_string(), "c".to_string()], ", "), "a, b, c");
}

#[test]
fn track_name_is_the_trimmed_file_text() {
    assert_eq!(get_track_name(Some("  htb-box \n")), Some("htb-box".to_string()));
    assert_eq!(get_track_name(Some(" \n\t")), None);
    assert_eq!(get_track_name(Some("")), None);
    assert_eq!(get_track_name(None), None);
}

#[test]
fn track_banner_fills_the_terminal() {
    match track_banner("START", "htb", 40) {
        Banner::Ruled { label, dashes } => {
            assert_eq!(label, "--- [ START: htb.md ] ");
            assert_eq!(dashes, 40 - 22);
        },
        Banner::Plain(_) => panic!("expected a ruled banner"),
    }
    match track_banner("START", "htb", 22) {
        Banner::Plain(label) => assert_eq!(label, "--- [ START: htb.md ] "),
        Banner::Ruled { .. } => panic!("expected a plain banner"),
    }
    match track_banner("FINISHED", "日本", 30) {
        Banner::Ruled { label, dashes } => {
            assert_eq!(label, "--- [ FINISHED: 日本.md ] ");
            assert_eq!(dashes, 30 - 26);
        },
        Banner::Plain(_) => panic!("expected a ruled banner"),
    }
}

#[test]
fn ansi_sequences_are_stripped() {
    assert_eq!(strip_ansi(b"\x1b[31mred\x1b[0m plain".to_vec()), b"red plain".to_vec());
    assert_eq!(strip_ansi(b"\x1b]0;title\x07text".to_vec()), b"text".to_vec());
    assert_eq!(strip_ansi(b"\x1b(Babc".to_vec()), b"abc".to_vec());
    assert_eq!(strip_ansi(b"\x1bcX".to_vec()), b"X".to_vec());
    assert_eq!(strip_ansi(b"ab\x1b".to_vec()), b"ab".to_vec());
    assert_eq!(strip_ansi(b"a\x1b[12".to_vec()), b"a".to_vec());
    assert_eq!(strip_ansi(b"a\x1b(".to_vec()), b"a".to_vec());
}

#[test]
fn pty_output_loses_returns_bells_and_escapes() {
    assert_eq!(remove_byte(&b"a\rb\r".to_vec(), b'\r'), b"ab".to_vec());
    assert_eq!(clean_output(b"line\r\n\x07bell\x1b[1mB\x1b[0m".to_vec()), b"line\nbellB".to_vec());
    // The bell is gone before the escape is read, so the title sequence runs to the end.
    assert_eq!(clean_output(b"\x1b]0;t\x07x".to_vec()), Vec::<u8>::new());
}

#[test]
fn image_links_point_at_the_records_images() {
    let c = "![a](./images/a.png) and ![b](./images/b.png)";
    assert_eq!(convert_image_paths(c, Some("/r")), "![a](/r/images/a.png) and ![b](/r/images/b.png)");
    assert_eq!(convert_image_paths(c, None), c);
}

#[test]
fn viewer_words_come_before_the_file() {
    assert_eq!(viewer_command("glow  -p", "/tmp/x.md"), vec!["glow", "-p", "/tmp/x.md"]);
    assert_eq!(viewer_command("bat", "f.md"), vec!["bat", "f.md"]);
}

#[test]
fn session_loop_serves_input_then_output_and_stops_at_the_end() {
    let s = SessionState::start();
    let (s, a) = session_step(s, SessionEvent::Polled { hangup: false, input_ready: true, output_ready: true });
    assert_eq!(a, SessionAction::CheckChild);
    let (s, a) = session_step(s, SessionEvent::ChildChecked { running: true });
    assert_eq!(a, SessionAction::ForwardInput);
    let (s, a) = session_step(s, SessionEvent::InputForwarded { read: 3, written: true });
    assert_eq!(a, SessionAction::ReadOutput);
    let (s, a) = session_step(s, SessionEvent::OutputRead { read: 10 });
    assert_eq!(a, SessionAction::Poll);
    assert_eq!(s, SessionState { input_ready: false, output_ready: false });
    let (_, a) = session_step(s, SessionEvent::Polled { hangup: true, input_ready: true, output_ready: false });
    assert_eq!(a, SessionAction::Finish);
    let (_, a) = session_step(s, SessionEvent::ChildChecked { running: false });
    assert_eq!(a, SessionAction::Finish);
    let (_, a) = session_step(s, SessionEvent::InputForwarded { read: 0, written: false });
    assert_eq!(a, SessionAction::Finish);
    let (_, a) = session_step(s, SessionEvent::InputForwarded { read: 2, written: false });
    assert_eq!(a, SessionAction::Finish);
    let (_, a) = session_step(s, SessionEvent::OutputRead { read: 0 });
    assert_eq!(a, SessionAction::Finish);
    let only_output = SessionState { input_ready: false, output_ready: true };
    let (_, a) = session_step(only_output, SessionEvent::ChildChecked { running: true });
    assert_eq!(a, SessionAction::ReadOutput);
    let (_, a) = session_step(SessionState::start(), SessionEvent::ChildChecked { running: true });
    assert_eq!(a, SessionAction::Poll);
}

#[test]
fn entry_text_is_the_template_filled_in() {
    let md = Md::new(
        Some("List files".to_string()),
        None,
        vec!["ls".to_string(), "-la".to_string()],
        "batch".to_string(),
        Some("total 0".to_string()),
        Some("fs,shell".to_string()),
        None,
    );
    let (_, text) = md.entry(&ctx()).unwrap();
    assert_eq!(
        text,
        "# List files\n\n## Message\n{none}\n\n## Command\n```bash batch\nls -la\n```\n\n## Result\n```\ntotal 0\n```\n\n## Tag\nfs,shell"
    );
}

#[test]
fn section_without_command_or_mode_shows_none() {
    let mut r = base("/r/writeups/w.md");
    r.title = Some("<b>&'x'</b>".to_string());
    r.result = Some("a {{ b }}\n".to_string());
    let text = render_section(&r).unwrap();
    assert_eq!(
        text,
        "# <b>&'x'</b>\n\n## Message\n{none}\n\n## Command\n```bash None\nNone\n```\n\n## Result\n```\na {{ b }}\n\n```\n\n## Tag\n"
    );
}

#[test]
fn appended_entries_read_back_in_order() {
    let first = Md::new(Some("One".to_string()), None, vec!["id".to_string()], "batch".to_string(), None, None, None);
    let second = Md::new(
        Some("Two".to_string()),
        Some("again".to_string()),
        vec!["uname".to_string(), "-a".to_string()],
        "pty".to_string(),
        Some("Linux".to_string()),
        Some("sys".to_string()),
        None,
    );
    let (_, a) = first.entry(&ctx()).unwrap();
    let (_, b) = second.entry(&ctx()).unwrap();
    let content = format!("{}\n{}\n", a, b);
    let secs = collect_sections(&base("/r/commands/id.md"), &content);
    assert_eq!(secs.len(), 2);
    assert_eq!(secs[0].index, 0);
    assert_eq!(secs[0].title.as_deref(), Some("One"));
    assert_eq!((secs[0].start_line, secs[0].end_line), (Some(0), Some(17)));
    assert_eq!(secs[1].index, 1);
    assert_eq!(secs[1].title.as_deref(), Some("Two"));
    assert_eq!((secs[1].start_line, secs[1].end_line), (Some(17), Some(34)));
    assert_eq!(secs[1].message.as_deref(), Some("again"));
    assert_eq!(secs[1].command.as_deref(), Some("uname -a"));
    assert_eq!(secs[1].mode.as_deref(), Some("pty"));
    assert_eq!(secs[1].tags, vec!["sys"]);
}

#[test]
fn absolute_program_names_replace_the_directory() {
    let md = Md::new(None, None, vec!["/usr/bin/id".to_string()], "batch".to_string(), None, None, None);
    let (path, _) = md.entry(&ctx()).unwrap();
    assert_eq!(path, "/usr/bin/id.md");
    let md = Md::new(None, None, vec!["bin/id".to_string()], "batch".to_string(), None, None, None);
    let (path, _) = md.entry(&ctx()).unwrap();
    assert_eq!(path, "/r/commands/bin/id.md");
    assert_eq!(Context::new(Some("/r/")).unwrap().commands_dir, "/r/commands");
}

#[test]
fn records_made_under_a_set_track_go_to_its_file() {
    let track = get_track_name(Some("box-01\n"));
    let a = args(&["whoami"], true, false);
    let p = dispatch::run(&a);
    let md = dispatch::run_with_executor(&p.executor, a, None, track);
    let (path, _) = md.entry(&ctx()).unwrap();
    assert_eq!(path, "/r/tracks/box-01.md");
}

#[test]
fn untrimmed_values_read_back_trimmed() {
    let md = Md::new(
        Some("  Ping  ".to_string()),
        Some("  hello \n  world ".to_string()),
        vec!["ls".to_string(), "-la ".to_string()],
        "batch".to_string(),
        Some("\n out \n".to_string()),
        Some(" a , b ".to_string()),
        None,
    );
    let (path, text) = md.entry(&ctx()).unwrap();
    let secs = collect_sections(&base(&path), &format!("{}\n", text));
    assert_eq!(secs.len(), 1);
    let s = &secs[0];
    assert_eq!(s.title.as_deref(), Some("Ping"));
    assert_eq!(s.message.as_deref(), Some("hello\nworld"));
    assert_eq!(s.command.as_deref(), Some("ls -la"));
    assert_eq!(s.result.as_deref(), Some("out"));
    assert_eq!(s.tags, vec!["a", "b"]);
    assert_eq!(s.end_line, Some(20));
}

#[test]
fn a_file_of_entries_counts_one_section_per_entry() {
    let one = Md::new(Some("A".to_string()), None, vec!["id".to_string()], "batch".to_string(), None, None, None);
    let two = Md::new(Some("B".to_string()), None, vec!["ls".to_string()], "pty".to_string(), None, None, None);
    let (_, a) = one.entry(&ctx()).unwrap();
    let (_, b) = two.entry(&ctx()).unwrap();
    let content = format!("{}\n{}\n", a, b);
    assert_eq!(ors::feature::search::executor::common::count_section(&content), 2);
    assert_eq!(collect_sections(&base("/r/commands/x.md"), &content).len(), 2);
}
