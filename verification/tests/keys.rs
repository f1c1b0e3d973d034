use std::collections::HashSet;
use std::path::PathBuf;

use unlog::app::{App, Mode};
use unlog::history::{encode, parse};
use unlog::keys::{key_command, Bound, Command, Key, KeyPress, Outcome};

fn press(key: Key) -> KeyPress {
    KeyPress { key, ctrl: false }
}

fn ch(c: char) -> KeyPress {
    press(Key::Char(c))
}

fn app_of(data: &[u8]) -> App {
    App::new(parse(data), PathBuf::from("/tmp/h"))
}

#[test]
fn ctrl_c_quits_in_every_mode() {
    let ctrl_c = KeyPress { key: Key::Char('c'), ctrl: true };
    for mode in [Mode::Normal, Mode::Range, Mode::FilterText, Mode::FilterMinLen, Mode::FilterMaxLen] {
        assert_eq!(key_command(mode, ctrl_c), Command::Quit);
    }
}

#[test]
fn normal_mode_keys() {
    assert_eq!(key_command(Mode::Normal, ch('q')), Command::Quit);
    assert_eq!(key_command(Mode::Normal, press(Key::Esc)), Command::Quit);
    assert_eq!(key_command(Mode::Normal, press(Key::Down)), Command::MoveBy(1));
    assert_eq!(key_command(Mode::Normal, ch('k')), Command::MoveBy(-1));
    assert_eq!(key_command(Mode::Normal, ch('G')), Command::GoTo(usize::MAX));
    assert_eq!(key_command(Mode::Normal, KeyPress { key: Key::Char('d'), ctrl: true }), Command::Delete(true));
    assert_eq!(key_command(Mode::Normal, press(Key::Delete)), Command::Delete(false));
    assert_eq!(key_command(Mode::Normal, ch('M')), Command::SetMode(Mode::FilterMaxLen));
    assert_eq!(key_command(Mode::Normal, ch('x')), Command::Ignore);
}

#[test]
fn filter_mode_keys() {
    assert_eq!(key_command(Mode::FilterText, ch('x')), Command::PushText('x'));
    assert_eq!(key_command(Mode::FilterText, ch('\u{7}')), Command::Ignore);
    assert_eq!(key_command(Mode::FilterText, press(Key::Enter)), Command::SetMode(Mode::Normal));
    assert_eq!(key_command(Mode::FilterMinLen, ch('7')), Command::PushLength(Bound::Min, '7'));
    assert_eq!(key_command(Mode::FilterMaxLen, press(Key::Backspace)), Command::PopLength(Bound::Max));
    assert_eq!(key_command(Mode::FilterMaxLen, ch('x')), Command::Ignore);
    assert_eq!(key_command(Mode::Range, press(Key::Esc)), Command::CancelRange);
    assert_eq!(key_command(Mode::Range, ch('a')), Command::FinishRangeSelectAll);
}

#[test]
fn v_then_three_moves_then_d_deletes_three_entries() {
    let mut app = app_of(b"a\nb\nc\nd\ne\n");
    for key in [ch('v'), ch('j'), ch('j'), ch('j')] {
        assert_eq!(app.handle_key(key), Outcome::Continue);
    }
    assert_eq!(app.handle_key(ch('d')), Outcome::Removed(3));
    let left: Vec<&str> = app.entries.iter().map(|e| e.command.as_str()).collect();
    assert_eq!(left, ["d", "e"]);
    assert!(app.mode == Mode::Normal);
}

#[test]
fn slash_a_d_clears_matching_entries() {
    let mut app = app_of(b"git a\nls\ngit b\n");
    app.handle_key(ch('/'));
    assert!(app.mode == Mode::FilterText);
    for c in "GIT".chars() {
        app.handle_key(ch(c));
    }
    app.handle_key(press(Key::Enter));
    assert_eq!(app.filtered, vec![0, 2]);
    app.handle_key(ch('a'));
    assert_eq!(app.handle_key(ch('d')), Outcome::Removed(2));
    let left: Vec<&str> = app.entries.iter().map(|e| e.command.as_str()).collect();
    assert_eq!(left, ["ls"]);
    assert!(app.filtered.is_empty());
}

#[test]
fn length_filter_typing() {
    let mut app = app_of(b"a\nabcd\nabcdefgh\n");
    app.handle_key(ch('m'));
    app.handle_key(ch('4'));
    assert_eq!(app.min_length, Some(4));
    assert_eq!(app.filtered, vec![1, 2]);
    app.handle_key(ch('x'));
    assert_eq!(app.min_length, Some(4));
    app.handle_key(press(Key::Backspace));
    assert_eq!(app.min_length, None);
    assert_eq!(app.filtered, vec![0, 1, 2]);
    app.handle_key(press(Key::Esc));
    app.handle_key(ch('M'));
    app.handle_key(ch('1'));
    app.handle_key(ch('0'));
    assert_eq!(app.max_length, Some(10));
    for _ in 0..25 {
        app.handle_key(ch('9'));
    }
    assert!(app.max_length.is_some());
}

#[test]
fn escape_in_range_restores_the_selection() {
    let mut app = app_of(b"a\nb\nc\n");
    app.handle_key(ch(' '));
    app.handle_key(ch('j'));
    app.handle_key(ch('v'));
    app.handle_key(ch('j'));
    assert_eq!(app.selected, HashSet::from([0, 1]));
    app.handle_key(press(Key::Esc));
    assert_eq!(app.selected, HashSet::from([0]));
    assert_eq!(app.handle_key(ch('q')), Outcome::Quit);
}

#[test]
fn text_backspace_pops_a_character() {
    let mut app = app_of(b"ab\nb\n");
    app.handle_key(ch('/'));
    app.handle_key(ch('a'));
    assert_eq!(app.filtered, vec![0]);
    app.handle_key(press(Key::Backspace));
    assert_eq!(app.text_filter, "");
    assert_eq!(app.filtered, vec![0, 1]);
}

#[test]
fn order_key_flips_the_view() {
    let mut app = app_of(b"a\nb\n");
    app.handle_key(ch('r'));
    assert_eq!(app.filtered, vec![1, 0]);
    assert_eq!(app.cursor_entry(), Some(0));
}

#[test]
fn deleting_keeps_the_survivors_bytes() {
    let data: &[u8] = b": 1:0;make\\\n  all\n: 2:0;rm x\n\xffbad\n: 3:0;ls\n";
    let mut app = App::new(parse(data), PathBuf::from("/tmp/h"));
    assert_eq!(app.entries.len(), 4);
    app.handle_key(ch('j'));
    assert_eq!(app.handle_key(ch('d')), Outcome::Removed(1));
    let written = encode(&app.entries);
    assert_eq!(written, b": 1:0;make\\\n  all\n\xffbad\n: 3:0;ls\n".to_vec());
    let back = parse(&written);
    assert_eq!(back.len(), 3);
    for (read, kept) in back.iter().zip(app.entries.iter()) {
        assert_eq!(read.raw, kept.raw);
        assert_eq!(read.command, kept.command);
    }
}

#[test]
fn a_failed_rewrite_is_reported_and_not_counted() {
    let mut app = app_of(b"a\nb\n");
    app.record_save(2, Some(("/h", "disk full")));
    assert_eq!(app.error_msg.as_deref(), Some("could not write /h: disk full (2 entries removed in memory only)"));
    assert_eq!(app.deleted, 0);
    app.frame_shown();
    assert!(app.error_msg.is_none());
    app.record_save(2, None);
    app.record_save(1, None);
    assert_eq!(app.deleted, 3);
    assert!(app.error_msg.is_none());
}
