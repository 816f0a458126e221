use statute_annotator::record::{
    arry_contructor, ellipsis, from_chapter, make_window, show_prompt, Buffer, ParsingState,
};
use statute_annotator::session::{parse_command, parse_input, Command, Session};

fn lines(v: &[&str]) -> Vec<String> {
    v.iter().map(|s| s.to_string()).collect()
}

#[test]
fn section_command_starts_a_record() {
    let mut s = Session::new();
    s.feed("Whoever commits murder...", "s.302");
    assert_eq!(s.record().penal_code, "302");
    assert_eq!(s.record().summary, Some("Whoever commits murder...".to_string()));
    assert_eq!(s.state(), ParsingState::Summary);
    assert_eq!(s.records().len(), 1);
    assert_eq!(s.records()[0].penal_code, "302");
}

#[test]
fn section_replaces_summary() {
    let mut s = Session::new();
    s.feed("first", "u");
    s.feed("second", "s.1");
    assert_eq!(s.record().summary, Some("second".to_string()));
}

#[test]
fn append_to_chapter_emits_nothing() {
    let mut s = Session::new();
    s.feed("Of offences", "a");
    assert_eq!(s.record().chapter, "\nOf offences");
    assert!(s.records().is_empty());
    assert_eq!(s.state(), ParsingState::Chapter);
}

#[test]
fn append_to_summary_adds_a_line() {
    let mut s = Session::new();
    s.feed("Whoever", "s.302");
    s.feed("shall be punished", "a");
    assert_eq!(s.record().summary, Some("Whoever\nshall be punished".to_string()));
    assert_eq!(s.records().len(), 2);
}

#[test]
fn illustration_and_sidenote_lists_grow() {
    let mut s = Session::new();
    s.feed("(a) A kills B", "l");
    s.feed("(b) C kills D", "a");
    s.feed("Punishment for murder", "d");
    assert_eq!(
        s.record().illustrations,
        Some(vec!["(a) A kills B".to_string(), "(b) C kills D".to_string()])
    );
    assert_eq!(s.record().sidenotes, Some(vec!["Punishment for murder".to_string()]));
    assert_eq!(s.state(), ParsingState::Sidenotes);
    assert_eq!(s.records().len(), 3);
}

#[test]
fn summary_command_appends_after_newline() {
    let mut s = Session::new();
    s.feed("text", "u");
    assert_eq!(s.record().summary, Some("\ntext".to_string()));
}

#[test]
fn chapter_command_sets_label() {
    let mut s = Session::new();
    s.feed("CHAPTER XVI", "c.XVI");
    assert_eq!(s.record().chapter, "ChapterXVI\n");
    assert_eq!(s.state(), ParsingState::Chapter);
    assert_eq!(s.records().len(), 1);
}

#[test]
fn ignore_blank_and_quit_emit_nothing() {
    let mut s = Session::new();
    s.feed("line", "i");
    s.feed("line", "   ");
    assert!(s.records().is_empty());
    s.feed("line", "q");
    assert!(s.is_finished());
    s.feed("line", "s.1");
    assert!(s.records().is_empty());
    assert_eq!(s.record().penal_code, "");
}

#[test]
fn unrecognized_answer_keeps_record_and_emits() {
    let mut s = Session::new();
    s.feed("x", "s.7");
    s.feed("y", "zzz");
    assert_eq!(s.record().summary, Some("x".to_string()));
    assert_eq!(s.records().len(), 2);
}

#[test]
fn empty_text_line_is_skipped() {
    let mut s = Session::new();
    assert!(!s.needs_prompt(""));
    assert!(s.needs_prompt("x"));
    s.feed("", "s.1");
    assert!(s.records().is_empty());
}

#[test]
fn commands_are_read_after_trimming() {
    assert!(matches!(parse_command("  q "), Command::Quit));
    assert!(matches!(parse_command("i"), Command::Ignore));
    assert!(matches!(parse_command("add"), Command::Append));
    assert!(matches!(parse_command("a"), Command::Append));
    assert!(matches!(parse_command(" s.302 "), Command::Section(ref c) if c == "302"));
    assert!(matches!(parse_command("c.IV"), Command::SetChapter(ref c) if c == "IV"));
    assert!(matches!(parse_command("s."), Command::Section(ref c) if c.is_empty()));
    assert!(matches!(parse_command("u"), Command::Summary));
    assert!(matches!(parse_command("l"), Command::Illustration));
    assert!(matches!(parse_command("d"), Command::Sidenote));
    assert!(matches!(parse_command(""), Command::Blank));
    assert!(matches!(parse_command("uu"), Command::Unrecognized));
    assert!(matches!(parse_command("s"), Command::Unrecognized));
}

#[test]
fn replayed_session_gives_snapshots() {
    let text = lines(&["CHAPTER XVI", "", "302. Punishment", "Whoever commits murder", "more", "tail"]);
    let answers = lines(&["c.XVI", "i", "s.302", "a", "q"]);
    let out = parse_input(text, answers);
    assert_eq!(out.len(), 3);
    assert_eq!(out[0].chapter, "ChapterXVI\n");
    assert_eq!(out[1].penal_code, "302");
    assert_eq!(out[2].summary, Some("Whoever commits murder\nmore".to_string()));
}

#[test]
fn replay_stops_when_answers_run_out() {
    let out = parse_input(lines(&["a", "b", "c"]), lines(&["s.1"]));
    assert_eq!(out.len(), 1);
}

#[test]
fn ellipsis_cuts_long_text() {
    let long = "x".repeat(70);
    assert_eq!(ellipsis(&long), format!("{}...", "x".repeat(67)));
    assert_eq!(ellipsis("short"), "short");
    assert_eq!(ellipsis(&"y".repeat(67)), "y".repeat(67));
}

#[test]
fn ellipsis_counts_bytes() {
    let mixed = format!("{}{}", "é".repeat(30), "x".repeat(10));
    assert_eq!(ellipsis(&mixed), format!("{}{}...", "é".repeat(30), "x".repeat(7)));
    // no character boundary at the limit: cut at the last one below it
    assert_eq!(ellipsis(&"é".repeat(40)), format!("{}...", "é".repeat(33)));
    assert_eq!(ellipsis(&"é".repeat(33)), "é".repeat(33));
}

#[test]
fn empty_record_renders_quoted_lists() {
    let b = from_chapter(String::new());
    assert_eq!(b.render(), "Chapter: \nPenal Code: \nSummary: \nIllustrations: \"\"\nSidenotes: \"\"");
}

#[test]
fn prompt_names_current_field() {
    let p = show_prompt(ParsingState::Illustrations);
    let expected = "\n    Press: i: ignore, s.<section_id>: start new section, c.<chapter_id>: sets chapter\n    u: summary, l:illustrations, d: side_bar, a: add to current (Illustrations) q: quit\n    ";
    assert_eq!(p, expected);
}

#[test]
fn window_shows_line_and_followers() {
    let w = make_window(0, lines(&["first", "second"]));
    let expected = format!("\n\n\n{}\n>>>> \tfirst\nsecond{}", "-".repeat(39), "\n".repeat(8));
    assert_eq!(w, expected);
    let past = make_window(5, lines(&["only"]));
    assert_eq!(past, format!("\n\n\n{}\n>>>> \t{}", "-".repeat(39), "\n".repeat(9)));
}

#[test]
fn empty_record_for_chapter() {
    let b = from_chapter("ChapterI".to_string());
    assert_eq!(b.chapter, "ChapterI");
    assert_eq!(b.penal_code, "");
    assert!(b.summary.is_none() && b.illustrations.is_none() && b.sidenotes.is_none());
}

#[test]
fn array_values_default_to_one_empty_item() {
    assert_eq!(arry_contructor(&None), vec!["".to_string()]);
    let v = Some(vec!["a".to_string(), "b".to_string()]);
    assert_eq!(arry_contructor(&v), vec!["a".to_string(), "b".to_string()]);
}

#[test]
fn row_and_render_of_record() {
    let b = Buffer {
        chapter: "ChapterXVI\n".to_string(),
        penal_code: "302".to_string(),
        summary: None,
        illustrations: Some(vec!["one".to_string(), "two".to_string()]),
        sidenotes: None,
    };
    let row = b.to_query();
    assert_eq!(row.penal_code, "302");
    assert_eq!(row.summary, "");
    assert_eq!(row.illustrations, vec!["one".to_string(), "two".to_string()]);
    assert_eq!(row.sidenotes, vec!["".to_string()]);
    assert_eq!(
        b.render(),
        "Chapter: ChapterXVI\n\nPenal Code: 302\nSummary: \nIllustrations: \"one\\ntwo\"\nSidenotes: \"\""
    );
    let copy = b.snapshot();
    assert_eq!(copy.illustrations, b.illustrations);
}

#[test]
fn prompt_shows_record_window_and_menu() {
    let mut s = Session::new();
    s.feed("Whoever commits murder", "s.302");
    let text = lines(&["Whoever commits murder", "next"]);
    let expected = format!(
        "{}\n\n{}\n\n\n{}",
        s.record().render(),
        make_window(1, text.clone()),
        show_prompt(ParsingState::Summary)
    );
    assert_eq!(s.prompt(1, text), expected);
    assert!(s.prompt(0, lines(&["x"])).starts_with("Chapter: \nPenal Code: 302\nSummary: Whoever commits murder"));
}

#[test]
fn empty_list_is_stored_as_one_empty_item() {
    assert_eq!(arry_contructor(&Some(Vec::new())), vec!["".to_string()]);
    let b = Buffer {
        chapter: "c".to_string(),
        penal_code: "1".to_string(),
        summary: Some("s".to_string()),
        illustrations: Some(Vec::new()),
        sidenotes: Some(vec!["note".to_string()]),
    };
    let row = b.to_query();
    assert_eq!(row.illustrations, vec!["".to_string()]);
    assert_eq!(row.sidenotes, vec!["note".to_string()]);
}
