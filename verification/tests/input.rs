use unlog::input::{decimal, deletion_notice, pop_digit, push_digit};
use unlog::layout::{areas_of, layout, Rect};

#[test]
fn digits_append_and_delete() {
    assert_eq!(push_digit(None, '5'), Some(5));
    assert_eq!(push_digit(Some(12), '3'), Some(123));
    assert_eq!(push_digit(Some(0), '7'), Some(7));
    assert_eq!(push_digit(Some(1), 'x'), None);
    assert_eq!(push_digit(Some(usize::MAX / 10 + 1), '0'), None);
    assert_eq!(pop_digit(Some(123)), Some(12));
    assert_eq!(pop_digit(Some(7)), None);
    assert_eq!(pop_digit(None), None);
    assert_eq!(pop_digit(push_digit(Some(42), '1')), Some(42));
}

#[test]
fn decimal_text() {
    assert_eq!(decimal(0), "0");
    assert_eq!(decimal(907), "907");
    assert_eq!(decimal(usize::MAX), usize::MAX.to_string());
}

#[test]
fn deletion_notice_wording() {
    let one = deletion_notice(1, "~/.zsh_history");
    assert!(one.starts_with("unlog: removed 1 entry from ~/.zsh_history. Shells"));
    let many = deletion_notice(3, "/h");
    assert!(many.starts_with("unlog: removed 3 entries from /h."));
    assert!(many.ends_with("or open a new shell, to drop them."));
    assert!(many.contains("`fc -p $HISTFILE`"));
}

#[test]
fn screen_layout() {
    let areas = layout(Rect { x: 0, y: 0, width: 80, height: 24 });
    assert_eq!(areas.filter, Rect { x: 0, y: 0, width: 80, height: 1 });
    assert_eq!(areas.list, Rect { x: 0, y: 1, width: 80, height: 22 });
    assert_eq!(areas.help, Rect { x: 0, y: 23, width: 80, height: 1 });
}

#[test]
fn areas_are_taken_top_to_bottom() {
    let parts = vec![
        Rect { x: 0, y: 0, width: 5, height: 1 },
        Rect { x: 0, y: 1, width: 5, height: 3 },
        Rect { x: 0, y: 4, width: 5, height: 1 },
    ];
    let areas = areas_of(&parts);
    assert_eq!(areas.filter, parts[0]);
    assert_eq!(areas.list, parts[1]);
    assert_eq!(areas.help, parts[2]);
}

#[test]
fn small_screens() {
    let areas = layout(Rect { x: 3, y: 5, width: 10, height: 2 });
    assert_eq!(areas.filter, Rect { x: 3, y: 5, width: 10, height: 1 });
    assert_eq!(areas.list, Rect { x: 3, y: 6, width: 10, height: 0 });
    assert_eq!(areas.help, Rect { x: 3, y: 6, width: 10, height: 1 });
    let areas = layout(Rect { x: 0, y: 0, width: 4, height: 0 });
    for part in [areas.filter, areas.list, areas.help] {
        assert_eq!(part, Rect { x: 0, y: 0, width: 4, height: 0 });
    }
    let areas = layout(Rect { x: 0, y: 7, width: 4, height: 1 });
    assert_eq!(areas.filter.height + areas.list.height + areas.help.height, 1);
    assert_eq!(areas.list.height, 0);
    assert_eq!(areas.filter.y, 7);
}
