use std::collections::HashSet;
use std::path::PathBuf;

use unlog::app::{passes_filters, App, Mode};
use unlog::history::HistoryEntry;

fn entry(command: &str) -> HistoryEntry {
    HistoryEntry { command: command.to_string(), raw: format!("{command}\n").into_bytes() }
}

fn app_of(commands: &[&str]) -> App {
    App::new(commands.iter().map(|c| entry(c)).collect(), PathBuf::from("/tmp/history"))
}

#[test]
fn new_lists_every_entry() {
    let app = app_of(&["ls", "cd", "pwd"]);
    assert_eq!(app.filtered, vec![0, 1, 2]);
    assert_eq!(app.cursor, 0);
    assert_eq!(app.top, 0);
    assert_eq!(app.skip, 0);
    assert_eq!(app.cursor_entry(), Some(0));
    assert!(app.mode == Mode::Normal);
}

#[test]
fn text_filter_is_case_insensitive() {
    let mut app = app_of(&["Git status", "ls", "git log", "GIT"]);
    app.text_filter = "git".to_string();
    app.apply_filters();
    assert_eq!(app.filtered, vec![0, 2, 3]);
    app.text_filter = "LOG".to_string();
    app.apply_filters();
    assert_eq!(app.filtered, vec![2]);
}

#[test]
fn length_filters_are_inclusive() {
    let mut app = app_of(&["a", "abc", "abcde", "日本"]);
    app.min_length = Some(2);
    app.max_length = Some(3);
    app.apply_filters();
    assert_eq!(app.filtered, vec![1, 3]);
}

#[test]
fn filtering_clamps_the_cursor() {
    let mut app = app_of(&["a", "b", "c", "d"]);
    app.goto(3);
    app.text_filter = "a".to_string();
    app.apply_filters();
    assert_eq!(app.filtered, vec![0]);
    assert_eq!(app.cursor, 0);
    app.text_filter = "zzz".to_string();
    app.apply_filters();
    assert!(app.filtered.is_empty());
    assert_eq!(app.cursor_entry(), None);
}

#[test]
fn moving_stops_at_the_ends() {
    let mut app = app_of(&["a", "b", "c"]);
    app.move_cursor(-5);
    assert_eq!(app.cursor, 0);
    app.move_cursor(1);
    assert_eq!(app.cursor, 1);
    app.move_cursor(isize::MAX);
    assert_eq!(app.cursor, 2);
    app.goto(0);
    assert_eq!(app.cursor, 0);
    app.goto(usize::MAX);
    assert_eq!(app.cursor, 2);
}

#[test]
fn window_scrolls_the_least_that_shows_the_cursor() {
    let commands: Vec<String> = (0..10).map(|i| format!("cmd{i}")).collect();
    let refs: Vec<&str> = commands.iter().map(|s| s.as_str()).collect();
    let mut app = app_of(&refs);
    app.set_viewport(80, 3);
    app.move_cursor(2);
    assert_eq!(app.top, 0, "the cursor is still on the last row of the window");
    app.move_cursor(1);
    assert_eq!(app.top, 1, "one step past the window scrolls by one row");
    app.move_cursor(-1);
    assert_eq!(app.top, 1, "inside the window nothing scrolls");
    app.goto(9);
    assert_eq!(app.top, 7, "the last entry ends on the last row");
    app.goto(0);
    assert_eq!(app.top, 0, "above the window, the cursor entry becomes the first row");
}

#[test]
fn a_cursor_set_past_a_full_window_scrolls_one_row() {
    let mut app = app_of(&["a", "b", "c", "d"]);
    app.set_viewport(80, 3);
    app.cursor = 3;
    app.ensure_visible();
    assert_eq!((app.cursor, app.top, app.skip), (3, 1, 0));
}

#[test]
fn tall_entries_scroll_by_rows() {
    // With 80 columns and a prefix of 11, the text is 69 columns wide.
    let three = "x".repeat(69 * 3);
    let two = "y".repeat(69 * 2);
    let mut app = app_of(&[&three, &two, "a"]);
    app.set_viewport(80, 4);
    assert_eq!(app.text_width(), 69);
    assert_eq!(app.entry_height(0), 3);
    assert_eq!(app.entry_height(1), 2);
    assert_eq!(app.entry_height(5), 0);
    app.move_cursor(1);
    // One row of the first entry is scrolled past so the second one fits.
    assert_eq!((app.top, app.skip), (0, 1));
    app.move_cursor(1);
    // Two rows of the first entry are scrolled past so the last one ends on
    // the window's last row.
    assert_eq!((app.top, app.skip), (0, 2));
}

#[test]
fn an_entry_taller_than_the_window_shows_its_start() {
    let long = "y".repeat(69 * 5);
    let mut app = app_of(&["a", &long]);
    app.set_viewport(80, 2);
    app.move_cursor(1);
    assert_eq!(app.top, 1);
    assert_eq!(app.skip, 0);
}

#[test]
fn ensure_visible_twice_changes_nothing() {
    let long = "z".repeat(150);
    let mut app = app_of(&[&long, "a", &long, "b", "c"]);
    app.set_viewport(80, 4);
    app.goto(3);
    let (cursor, top, skip) = (app.cursor, app.top, app.skip);
    app.ensure_visible();
    assert_eq!((app.cursor, app.top, app.skip), (cursor, top, skip));
}

#[test]
fn index_and_text_widths() {
    let app = app_of(&["a"]);
    assert_eq!(app.index_width(), 5);
    assert_eq!(app.prefix_width(), 11);
    assert_eq!(app.text_width(), 69);
    let many: Vec<HistoryEntry> = (0..123457).map(|_| entry("x")).collect();
    let mut big = App::new(many, PathBuf::from("h"));
    assert_eq!(big.index_width(), 6);
    big.set_viewport(5, 10);
    assert_eq!(big.text_width(), 1);
}

#[test]
fn toggling_selection_twice_restores_it() {
    let mut app = app_of(&["a", "b"]);
    app.move_cursor(1);
    app.toggle_selection();
    assert_eq!(app.selected, HashSet::from([1]));
    app.toggle_selection();
    assert!(app.selected.is_empty());
}

#[test]
fn delete_targets_prefers_the_selection() {
    let mut app = app_of(&["a", "b", "c"]);
    assert_eq!(app.delete_targets(false), HashSet::from([0]));
    app.goto(2);
    app.toggle_selection();
    app.goto(0);
    assert_eq!(app.delete_targets(false), HashSet::from([2]));
    assert_eq!(app.delete_targets(true), HashSet::from([0]));
    let mut empty = app_of(&[]);
    assert!(empty.delete_targets(false).is_empty());
    assert_eq!(empty.delete(false), None);
}

#[test]
fn remove_keeps_the_other_entries_in_order() {
    let mut app = app_of(&["a", "b", "c", "d"]);
    app.toggle_selection();
    let removed = app.remove(&HashSet::from([1, 3]));
    assert_eq!(removed, 2);
    let left: Vec<&str> = app.entries.iter().map(|e| e.command.as_str()).collect();
    assert_eq!(left, ["a", "c"]);
    assert!(app.selected.is_empty());
    assert_eq!(app.filtered, vec![0, 1]);
    // Indices past the end remove nothing and are not counted.
    assert_eq!(app.remove(&HashSet::from([0, 7])), 1);
    assert_eq!(app.entries.len(), 1);
}

#[test]
fn delete_removes_the_cursor_entry_when_nothing_is_selected() {
    let mut app = app_of(&["a", "b", "c"]);
    app.goto(1);
    assert_eq!(app.delete(false), Some(1));
    let left: Vec<&str> = app.entries.iter().map(|e| e.command.as_str()).collect();
    assert_eq!(left, ["a", "c"]);
    assert_eq!(app.cursor, 1);
}

#[test]
fn range_covers_the_entries_swept_over() {
    let mut app = app_of(&["a", "b", "c", "d", "e"]);
    app.goto(1);
    app.toggle_selection();
    app.goto(2);
    app.begin_range();
    assert!(app.mode == Mode::Range);
    app.move_cursor(2);
    assert_eq!(app.selected, HashSet::from([1, 2, 3]));
    // Sweeping back narrows the range again.
    app.move_cursor(-1);
    assert_eq!(app.selected, HashSet::from([1, 2]));
    // Back on the anchor, only what was selected before remains.
    app.move_cursor(-1);
    assert_eq!(app.selected, HashSet::from([1]));
    app.move_cursor(2);
    assert_eq!(app.selected, HashSet::from([1, 2, 3]));
    app.cancel_range();
    assert!(app.mode == Mode::Normal);
    assert_eq!(app.selected, HashSet::from([1]));
}

#[test]
fn range_upwards_includes_the_anchor() {
    let mut app = app_of(&["a", "b", "c", "d"]);
    app.goto(3);
    app.begin_range();
    app.goto(0);
    assert_eq!(app.selected, HashSet::from([1, 2, 3]));
    app.finish_range();
    assert!(app.mode == Mode::Normal);
    assert_eq!(app.selected, HashSet::from([1, 2, 3]));
}

#[test]
fn select_all_toggles_only_the_view() {
    let mut app = app_of(&["git a", "ls", "git b"]);
    app.goto(1);
    app.toggle_selection();
    app.text_filter = "git".to_string();
    app.apply_filters();
    app.toggle_select_all();
    assert_eq!(app.selected, HashSet::from([0, 1, 2]));
    app.toggle_select_all();
    assert_eq!(app.selected, HashSet::from([1]));
}

#[test]
fn order_flip_keeps_the_cursor_entry() {
    let mut app = app_of(&["a", "b", "c", "d"]);
    app.goto(1);
    app.toggle_order();
    assert!(app.newest_first);
    assert_eq!(app.filtered, vec![3, 2, 1, 0]);
    assert_eq!(app.cursor_entry(), Some(1));
    app.toggle_order();
    assert_eq!(app.filtered, vec![0, 1, 2, 3]);
    assert_eq!(app.cursor_entry(), Some(1));
}

#[test]
fn newest_first_survives_refiltering() {
    let mut app = app_of(&["x1", "y", "x2"]);
    app.toggle_order();
    app.text_filter = "x".to_string();
    app.apply_filters();
    assert_eq!(app.filtered, vec![2, 0]);
}

#[test]
fn filter_test_on_a_lowercased_command() {
    assert!(passes_filters("git push", 8, "git", None, None));
    assert!(passes_filters("git push", 8, "", Some(8), Some(8)));
    assert!(!passes_filters("git push", 8, "GIT", None, None));
    assert!(!passes_filters("git push", 8, "pull", None, None));
    assert!(!passes_filters("git push", 8, "", Some(9), None));
    assert!(!passes_filters("git push", 8, "", None, Some(7)));
}

#[test]
fn a_tighter_bound_lists_no_more() {
    let commands = ["a", "abc", "abcdef", "abcdefghij"];
    let mut loose = app_of(&commands);
    loose.min_length = Some(2);
    loose.max_length = Some(9);
    loose.apply_filters();
    let mut tight = app_of(&commands);
    tight.min_length = Some(4);
    tight.max_length = Some(6);
    tight.apply_filters();
    assert_eq!(loose.filtered, vec![1, 2]);
    assert_eq!(tight.filtered, vec![2]);
    assert!(tight.filtered.iter().all(|i| loose.filtered.contains(i)));
}
