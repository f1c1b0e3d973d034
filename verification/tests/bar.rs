use std::path::PathBuf;

use unlog::app::{App, Mode};
use unlog::bar::{list_row, Tone};
use unlog::history::parse;

fn app_of(data: &[u8]) -> App {
    App::new(parse(data), PathBuf::from("/tmp/h"))
}

fn bar_text(app: &App) -> String {
    app.filter_bar().into_iter().map(|s| s.text).collect()
}

#[test]
fn filter_bar_shows_filters_and_counts() {
    let mut app = app_of(b"git a\nls\ngit b\n");
    assert_eq!(bar_text(&app), "Text: \"\" | Len: \u{2265}- \u{2264}- | Entries: 3/3");
    app.text_filter = "git".to_string();
    app.min_length = Some(2);
    app.apply_filters();
    app.toggle_selection();
    assert_eq!(
        bar_text(&app),
        "Text: \"git\" | Len: \u{2265}2 \u{2264}- | Entries: 2/3 | Sel: 1"
    );
    app.toggle_order();
    assert!(bar_text(&app).contains(" | Order: newest first | Sel: 1"));
}

#[test]
fn filter_bar_tones_follow_the_mode() {
    let mut app = app_of(b"a\n");
    app.max_length = Some(9);
    app.mode = Mode::FilterMinLen;
    let tones: Vec<Tone> = app.filter_bar().into_iter().map(|s| s.tone).collect();
    assert_eq!(
        tones,
        [Tone::Idle, Tone::Idle, Tone::Picked, Tone::Idle, Tone::Active, Tone::Idle, Tone::Count]
    );
    app.mode = Mode::FilterText;
    assert_eq!(app.filter_bar()[0].tone, Tone::Picked);
}

#[test]
fn status_bar_shows_errors_once_set() {
    let mut app = app_of(b"a\n");
    let help = app.status_bar();
    assert_eq!(help.tone, Tone::Hint);
    assert!(help.text.starts_with(" / filter"));
    app.error_msg = Some("disk full".to_string());
    let error = app.status_bar();
    assert_eq!(error.text, " disk full");
    assert_eq!(error.tone, Tone::Error);
}

#[test]
fn window_rows_cover_the_viewport() {
    let long = "x".repeat(69 * 3);
    let data = format!("a\n{long}\nb\nc\n");
    let mut app = app_of(data.as_bytes());
    app.set_viewport(80, 4);
    assert_eq!(app.window_rows(), vec![(0, 0), (1, 0), (1, 1), (1, 2)]);
    app.goto(1);
    assert_eq!(app.window_rows(), vec![(0, 0), (1, 0), (1, 1), (1, 2)]);
    app.goto(2);
    assert_eq!((app.top, app.skip), (1, 0));
    assert_eq!(app.window_rows(), vec![(1, 0), (1, 1), (1, 2), (2, 0)]);
    app.goto(0);
    app.set_viewport(80, 10);
    assert_eq!(app.window_rows().len(), 6);
    app.set_viewport(80, 0);
    assert!(app.window_rows().is_empty());
}

#[test]
fn list_rows_line_up_their_text() {
    assert_eq!(list_row(true, false, 7, 5, "ls -l"), "[ ]     7  ls -l");
    assert_eq!(list_row(true, true, 123456, 5, "x"), "[\u{2022}] 123456  x");
    assert_eq!(list_row(false, true, 7, 5, "more"), "           more");
    let first = list_row(true, false, 42, 6, "a");
    let next = list_row(false, false, 42, 6, "a");
    assert_eq!(first.chars().count(), next.chars().count());
}

#[test]
fn list_lines_follow_the_window() {
    let long = format!("{}{}", "x".repeat(69), "y".repeat(70));
    let data = format!("a\n{long}\n");
    let mut app = app_of(data.as_bytes());
    app.toggle_selection();
    app.set_viewport(80, 3);
    let lines = app.list_lines();
    assert_eq!(lines.len(), 3);
    assert_eq!(lines[0].text, "[\u{2022}]     0  a");
    assert!(lines[0].selected && lines[0].cursor);
    assert_eq!(lines[1].text, format!("[ ]     1  {}", "x".repeat(69)));
    assert!(!lines[1].selected && !lines[1].cursor);
    assert_eq!(lines[1].position, 1);
    assert_eq!(lines[2].text, format!("{}{}", " ".repeat(11), "y".repeat(69)));
    assert_eq!(lines[2].position, 1);
}
