use statute_annotator::normalize::{cleanup_chapter, tidy_text};
use statute_annotator::split::{prepare_chapters, split_at_starts, split_into_chapters};
use statute_annotator::text::{is_white_space, join_newline, trimmed};

#[test]
fn trimmed_strips_both_ends() {
    assert_eq!(trimmed("  \t hello world \r\n"), "hello world");
    assert_eq!(trimmed("   "), "");
    assert_eq!(trimmed("\u{3000}x\u{a0}"), "x");
}

#[test]
fn white_space_matches_std() {
    for c in [' ', '\t', '\n', '\r', '\u{85}', '\u{a0}', '\u{2003}', '\u{3000}', 'a', '_', '0'] {
        assert_eq!(is_white_space(c), c.is_whitespace());
    }
}

#[test]
fn join_newline_puts_one_newline_between() {
    let v = vec!["a".to_string(), "".to_string(), "b".to_string()];
    assert_eq!(join_newline(&v), "a\n\nb");
    assert_eq!(join_newline(&Vec::new()), "");
}

#[test]
fn tidy_trims_lines_and_joins() {
    assert_eq!(tidy_text("  first line  \n   second\t\n"), "first line\nsecond");
}

#[test]
fn tidy_collapses_a_single_blank_line() {
    assert_eq!(tidy_text("a\n\nb"), "a\nb");
}

#[test]
fn tidy_shortens_three_blank_lines_to_one() {
    // four newlines in a row: one pass makes each pair one, leaving two
    assert_eq!(tidy_text("a\n\n\n\nb"), "a\n\nb");
}

#[test]
fn tidy_of_empty_text_is_empty() {
    assert_eq!(tidy_text(""), "");
    assert_eq!(tidy_text("\n"), "");
}

#[test]
fn cleanup_removes_gazette_footer() {
    let text = "Section 1 text\nTHE GAZETTE OF INDIA EXTRAORDINARY\nSection 2 text";
    assert_eq!(cleanup_chapter(text).unwrap(), "Section 1 text\nSection 2 text");
}

#[test]
fn cleanup_removes_underscore_divider() {
    let text = "abc\n__________\ndef";
    assert_eq!(cleanup_chapter(text).unwrap(), "abc\ndef");
}

#[test]
fn cleanup_keeps_short_underscore_runs() {
    let text = "abc\n____\ndef";
    assert_eq!(cleanup_chapter(text).unwrap(), "abc\n____\ndef");
}

#[test]
fn cleanup_keeps_ordinary_lines() {
    assert_eq!(cleanup_chapter("  Whoever commits murder  ").unwrap(), "Whoever commits murder");
}

#[test]
fn splitter_drops_preface() {
    let chapters = split_into_chapters("Preface\nCHAPTER I\nFoo\nCHAPTER II\nBar").unwrap();
    assert_eq!(chapters, vec!["\nCHAPTER I\nFoo".to_string(), "\nCHAPTER II\nBar".to_string()]);
}

#[test]
fn splitter_without_marker_returns_whole_text() {
    let chapters = split_into_chapters("no chapters here\nat all").unwrap();
    assert_eq!(chapters, vec!["no chapters here\nat all".to_string()]);
}

#[test]
fn splitter_counts_one_chapter_per_marker() {
    let text = "x\nCHAPTER I\na\nCHAPTER II\nb\nCHAPTER III\nc";
    let chapters = split_into_chapters(text).unwrap();
    assert_eq!(chapters.len(), 3);
    assert_eq!(chapters.concat(), text[1..].to_string());
}

#[test]
fn splitter_keeps_marker_at_text_start() {
    let chapters = split_into_chapters("\nCHAPTER I\nA\nCHAPTER II\nB").unwrap();
    assert_eq!(chapters, vec!["\nCHAPTER I\nA".to_string(), "\nCHAPTER II\nB".to_string()]);
}

#[test]
fn splitter_counts_characters_not_bytes() {
    let chapters = split_into_chapters("é\nCHAPTER I\nñ\nCHAPTER II\nü").unwrap();
    assert_eq!(chapters, vec!["\nCHAPTER I\nñ".to_string(), "\nCHAPTER II\nü".to_string()]);
}

#[test]
fn split_at_given_starts() {
    assert_eq!(split_at_starts("abcdef", &vec![1, 3]), vec!["bc".to_string(), "def".to_string()]);
    assert_eq!(split_at_starts("abc", &vec![]), vec!["abc".to_string()]);
}

#[test]
fn prepare_cleans_then_splits() {
    let text = "Preface\nCHAPTER I\n  Foo  \n\nTHE GAZETTE OF INDIA EXTRAORDINARY\nCHAPTER II\nBar";
    let units = prepare_chapters(text).unwrap();
    assert_eq!(units, vec!["\nCHAPTER I\nFoo\n".to_string(), "\nCHAPTER II\nBar".to_string()]);
}

#[test]
fn tidy_shortens_whitespace_only_lines() {
    // three lines holding only white space between two text lines become one empty line
    assert_eq!(tidy_text("first\n   \n\t\n \nsecond"), "first\n\nsecond");
    // two become one, four become two
    assert_eq!(tidy_text("x\n \n \ny"), "x\n\ny");
    assert_eq!(tidy_text("x\n \n \n \n \ny"), "x\n\n\ny");
}
