use unlog::history::{encode, parse, unescape_command};

#[test]
fn plain_lines_are_one_entry_each() {
    let entries = parse(b"ls\ncd /tmp\n");
    assert_eq!(entries.len(), 2);
    assert_eq!(entries[0].command, "ls");
    assert_eq!(entries[0].raw, b"ls\n");
    assert_eq!(entries[1].command, "cd /tmp");
}

#[test]
fn zsh_extended_headers_are_stripped() {
    let entries = parse(b": 1700000000:0;git status\n: 1700000001:12;make\n");
    assert_eq!(entries.len(), 2);
    assert_eq!(entries[0].command, "git status");
    assert_eq!(entries[1].command, "make");
    assert_eq!(entries[1].raw, b": 1700000001:12;make\n");
}

#[test]
fn escaped_newlines_continue_an_entry() {
    let data = b": 1:0;echo a\\\nb\n: 2:0;pwd\n";
    let entries = parse(data);
    assert_eq!(entries.len(), 2);
    assert_eq!(entries[0].command, "echo a\nb");
    assert_eq!(entries[0].raw, b": 1:0;echo a\\\nb\n");
    assert_eq!(entries[1].command, "pwd");
}

#[test]
fn a_header_never_continues_the_previous_entry() {
    let entries = parse(b": 1:0;x\\\n: 2:0;y\n");
    assert_eq!(entries.len(), 2);
    assert_eq!(entries[0].command, "x\\");
}

#[test]
fn malformed_headers_are_plain_commands() {
    let entries = parse(b": :0;a\n: 1x:0;b\n: 1:0b\n");
    assert_eq!(entries.len(), 3);
    assert_eq!(entries[0].command, ": :0;a");
    assert_eq!(entries[1].command, ": 1x:0;b");
    assert_eq!(entries[2].command, ": 1:0b");
    let entries = parse(b": 5:;empty duration\n");
    assert_eq!(entries[0].command, "empty duration");
}

#[test]
fn carriage_returns_and_missing_final_newline() {
    let entries = parse(b"a\r\nb");
    assert_eq!(entries.len(), 2);
    assert_eq!(entries[0].command, "a");
    assert_eq!(entries[0].raw, b"a\r\n");
    assert_eq!(entries[1].command, "b");
    assert_eq!(entries[1].raw, b"b");
}

#[test]
fn trailing_escaped_newlines_are_dropped_from_display() {
    let entries = parse(b": 1:0;ls\\\n\n");
    assert_eq!(entries.len(), 1);
    assert_eq!(entries[0].command, "ls");
}

#[test]
fn invalid_utf8_is_replaced_for_display_only() {
    let data = b"echo \xff\xfe\n";
    let entries = parse(data);
    assert_eq!(entries[0].command, "echo \u{fffd}\u{fffd}");
    assert_eq!(entries[0].raw, data.to_vec());
}

#[test]
fn empty_input_has_no_entries() {
    assert!(parse(b"").is_empty());
    let entries = parse(b"\n");
    assert_eq!(entries.len(), 1);
    assert_eq!(entries[0].command, "");
}

#[test]
fn encode_reproduces_the_file() {
    let data: &[u8] = b": 1:0;echo a\\\nb\nplain\n\xff\n: 2:0;x";
    let entries = parse(data);
    assert_eq!(encode(&entries), data.to_vec());
    assert_eq!(parse(&encode(&entries)).len(), entries.len());
}

#[test]
fn encode_keeps_surviving_bytes() {
    let entries = parse(b": 1:0;a\n: 2:0;b\n: 3:0;c\n");
    let kept = vec![entries[0].clone(), entries[2].clone()];
    assert_eq!(encode(&kept), b": 1:0;a\n: 3:0;c\n".to_vec());
}

#[test]
fn char_len_counts_characters() {
    let entries = parse("héllo 日本\n".as_bytes());
    assert_eq!(entries[0].char_len(), 8);
}

#[test]
fn a_rewrite_reads_back_as_the_survivors() {
    let data: &[u8] = b": 1:0;echo a\\\nb\nplain\n: 2:0;x\\\n: 3:0;y\nz\n";
    let entries = parse(data);
    assert_eq!(entries.len(), 5);
    let kept = vec![entries[0].clone(), entries[2].clone(), entries[4].clone()];
    let written = encode(&kept);
    assert_eq!(written, b": 1:0;echo a\\\nb\n: 2:0;x\\\nz\n".to_vec());
    let back = parse(&written);
    // `z` now follows a line ending with a backslash, so it reads back as a
    // continuation: the one case in which a rewrite regroups entries.
    assert_eq!(back.len(), 2);
    assert_eq!(back[1].command, "x\nz");
    let kept = vec![entries[1].clone(), entries[3].clone(), entries[4].clone()];
    let back = parse(&encode(&kept));
    assert_eq!(back.len(), 3);
    for (read, written_entry) in back.iter().zip(kept.iter()) {
        assert_eq!(read.raw, written_entry.raw);
        assert_eq!(read.command, written_entry.command);
    }
}

#[test]
fn unescaping_a_decoded_command() {
    assert_eq!(unescape_command("echo a\\\nb\n\n"), "echo a\nb");
    assert_eq!(unescape_command("a\\b\\"), "a\\b\\");
    assert_eq!(unescape_command("\n"), "");
}
