use unlog::text::{height, rows, sanitize, split_rows};

#[test]
fn wraps_on_boundaries() {
    assert_eq!(rows("", 5), [""], "an empty command still occupies a row");
    assert_eq!(rows("abcde", 5), ["abcde"], "exactly filling the width is one row");
    assert_eq!(rows("abcdef", 5), ["abcde", "f"]);
    assert_eq!(rows(&"x".repeat(121), 49).len(), 3);
}

#[test]
fn counts_columns_not_characters() {
    // Wide characters take two columns, so "日本" fills a four column row.
    assert_eq!(rows("日本語", 4), ["日本", "語"]);
    // A wide character that cannot fit still gets its own row.
    assert_eq!(rows("a日", 2), ["a", "日"]);
}

#[test]
fn zero_width_characters_never_split() {
    assert_eq!(rows("e\u{301}\u{301}", 1), ["e\u{301}\u{301}"]);
}

#[test]
fn sanitized_commands_stay_single_line() {
    assert_eq!(sanitize("a\nb\tc\u{0}d"), "a\u{23ce}b c d");
    assert_eq!(height("a\nb", 10), 1);
    assert_eq!(height(&"y".repeat(10), 4), 3);
}

#[test]
fn zero_width_width_is_treated_as_one() {
    assert_eq!(rows("abc", 0), ["a", "b", "c"]);
    assert_eq!(height("", 0), 1);
}

#[test]
fn rows_join_back_to_the_text() {
    let text = "échappé 日本 tabs\tand more text than fits";
    for width in 1..12 {
        let joined: String = rows(text, width).concat();
        assert_eq!(joined, text);
    }
}

#[test]
fn every_row_but_the_last_is_full() {
    let text = "abc日defg本hij";
    let wrapped = rows(text, 4);
    assert_eq!(wrapped, ["abc", "日de", "fg本", "hij"]);
}

#[test]
fn over_wide_character_keeps_its_zero_width_mark() {
    // A character wider than the row takes a row of its own, and a
    // combining mark after it stays on that row.
    assert_eq!(rows("日\u{301}", 1), ["日\u{301}"]);
    assert_eq!(rows("日\u{301}a", 1), ["日\u{301}", "a"]);
}

#[test]
fn control_characters_take_no_columns() {
    assert_eq!(rows("a\u{1}b", 2), ["a\u{1}b"]);
    assert_eq!(sanitize("\u{7f}\u{9f}\u{a0}"), "  \u{a0}");
}

#[test]
fn splitting_by_given_widths() {
    assert_eq!(split_rows("abc", &vec![2, 2, 2], 4), ["ab", "c"]);
    assert_eq!(split_rows("abc", &vec![5, 0, 1], 3), ["ab", "c"]);
    assert_eq!(split_rows("abc", &vec![1, 1, 1], 0), ["a", "b", "c"]);
    assert_eq!(split_rows("", &vec![], 3), [""]);
}
