//! Parsing and re-encoding shell history files.
//!
//! Two formats are understood:
//!
//! * **zsh extended**: `: <timestamp>:<duration>;<command>` headers, with
//!   embedded newlines escaped by zsh as `<backslash>` + newline. A line is a
//!   continuation of the previous entry exactly when the previous stored line
//!   ends with a backslash.
//! * **plain**: one command per line (bash default, zsh with
//!   `no_extended_history`).
//!
//! The file is handled as raw bytes, not `String`: real history files are not
//! always valid UTF-8 (zsh metafies non-ASCII bytes, pasted binary garbage
//! happens), and writing the file back must reproduce the bytes as read for
//! every entry that is not deleted. Only the display string is lossily decoded.

use vstd::prelude::*;

use crate::strings::{decode_utf8_lossy, push_char, utf8_lossy};

verus! {

#[derive(Clone, Debug)]
pub struct HistoryEntry {
    /// Cleaned command text for display, newlines unescaped.
    pub command: String,
    /// Bytes of this entry as read, including line terminators.
    pub raw: Vec<u8>,
}

impl HistoryEntry {
    /// Number of characters of the displayed command.
    pub fn char_len(&self) -> (r: usize)
        ensures
            r == self.command@.len(),
    {
        self.command.as_str().unicode_len()
    }
}

pub open spec fn newline() -> u8 {
    0x0a
}

/// Where the line starting at `pos` ends: just past its newline, or at the end
/// of the data.
pub open spec fn line_end(data: Seq<u8>, pos: int) -> int
    decreases data.len() - pos,
{
    if pos >= data.len() {
        data.len() as int
    } else if data[pos] == newline() {
        pos + 1
    } else {
        line_end(data, pos + 1)
    }
}

pub proof fn lemma_line_end_bounds(data: Seq<u8>, pos: int)
    requires
        0 <= pos < data.len(),
    ensures
        pos < line_end(data, pos) <= data.len(),
    decreases data.len() - pos,
{
    if data[pos] != newline() {
        if pos + 1 < data.len() {
            lemma_line_end_bounds(data, pos + 1);
        } else {
            assert(line_end(data, pos + 1) == data.len());
        }
    }
}

/// `line` without its line terminator: a trailing `\n`, then a trailing `\r`.
pub open spec fn strip_eol(line: Seq<u8>) -> Seq<u8> {
    let line = if line.len() > 0 && line.last() == newline() {
        line.drop_last()
    } else {
        line
    };
    if line.len() > 0 && line.last() == 0x0du8 {
        line.drop_last()
    } else {
        line
    }
}

pub open spec fn is_digit(b: u8) -> bool {
    0x30 <= b <= 0x39
}

/// Position of the first `sep` in `s` at or after `i`, or the length of `s`.
pub open spec fn find_byte(s: Seq<u8>, sep: u8, i: int) -> int
    decreases s.len() - i,
{
    if i >= s.len() {
        s.len() as int
    } else if s[i] == sep {
        i
    } else {
        find_byte(s, sep, i + 1)
    }
}

/// Splits `s` at its first `sep` into what comes before and what comes after,
/// provided there is a `sep` and everything before it is an ASCII digit.
pub open spec fn split_digits(s: Seq<u8>, sep: u8) -> Option<(Seq<u8>, Seq<u8>)> {
    let at = find_byte(s, sep, 0);
    if at < s.len() && (forall|i: int| 0 <= i < at ==> is_digit(#[trigger] s[i])) {
        Some((s.take(at), s.skip(at + 1)))
    } else {
        None
    }
}

/// The command of a `: <timestamp>:<duration>;<command>` header line, with a
/// non-empty timestamp and a possibly empty duration, both made of digits.
pub open spec fn header_command(line: Seq<u8>) -> Option<Seq<u8>> {
    if line.len() >= 2 && line[0] == 0x3au8 && line[1] == 0x20u8 {
        match split_digits(line.skip(2), 0x3au8) {
            Some((stamp, rest)) => if stamp.len() == 0 {
                None
            } else {
                match split_digits(rest, 0x3bu8) {
                    Some((_duration, command)) => Some(command),
                    None => None,
                }
            },
            None => None,
        }
    } else {
        None
    }
}

pub open spec fn ends_with_backslash(line: Seq<u8>) -> bool {
    line.len() > 0 && line.last() == 0x5cu8
}

/// One stored entry: its raw bytes and its command bytes as stored (escaped
/// newlines still escaped).
pub type StoredEntry = (Seq<u8>, Seq<u8>);

/// The entries after one more line: a header line starts a new entry; a
/// plain line continues the last entry when the previous line ended with a
/// backslash, and starts a new one otherwise.
pub open spec fn add_line(entries: Seq<StoredEntry>, line: Seq<u8>, continues: bool) -> Seq<
    StoredEntry,
> {
    let bare = strip_eol(line);
    match header_command(bare) {
        Some(command) => entries.push((line, command)),
        None => if continues && entries.len() > 0 {
            let last = entries.last();
            entries.update(entries.len() - 1, (last.0 + line, last.1.push(newline()) + bare))
        } else {
            entries.push((line, bare))
        },
    }
}

/// The entries of `data` given those of the lines before `pos`; `continues`
/// says whether the line before `pos` ended with a backslash.
pub open spec fn entries_from(data: Seq<u8>, pos: int, entries: Seq<StoredEntry>, continues: bool) -> Seq<
    StoredEntry,
>
    decreases data.len() - pos,
{
    if pos < 0 || pos >= data.len() {
        entries
    } else {
        let end = line_end(data, pos);
        proof {
            lemma_line_end_bounds(data, pos);
        }
        let line = data.subrange(pos, end);
        entries_from(data, end, add_line(entries, line, continues), ends_with_backslash(strip_eol(line)))
    }
}

/// The entries a history file holds, as stored.
pub open spec fn stored_entries(data: Seq<u8>) -> Seq<StoredEntry> {
    entries_from(data, 0, Seq::empty(), false)
}

/// `s` with each backslash that stands right before a newline removed.
pub open spec fn unescape_newlines(s: Seq<char>) -> Seq<char>
    decreases s.len(),
{
    if s.len() == 0 {
        s
    } else if s.len() >= 2 && s[0] == '\\' && s[1] == '\n' {
        seq!['\n'] + unescape_newlines(s.skip(2))
    } else {
        seq![s[0]] + unescape_newlines(s.skip(1))
    }
}

/// Unescaping works piece by piece: the text splits anywhere that does not
/// cut a backslash from what follows it.
pub proof fn lemma_unescape_concat(a: Seq<char>, b: Seq<char>)
    requires
        a.len() == 0 || a.last() != '\\',
    ensures
        unescape_newlines(a + b) == unescape_newlines(a) + unescape_newlines(b),
    decreases a.len(),
{
    if a.len() == 0 {
        assert(a + b =~= b);
    } else if a.len() >= 2 && a[0] == '\\' && a[1] == '\n' {
        assert((a + b).skip(2) =~= a.skip(2) + b);
        lemma_unescape_concat(a.skip(2), b);
        assert(seq!['\n'] + (unescape_newlines(a.skip(2)) + unescape_newlines(b)) =~= seq!['\n']
            + unescape_newlines(a.skip(2)) + unescape_newlines(b));
    } else {
        assert((a + b).skip(1) =~= a.skip(1) + b);
        lemma_unescape_concat(a.skip(1), b);
        assert(seq![a[0]] + (unescape_newlines(a.skip(1)) + unescape_newlines(b)) =~= seq![a[0]]
            + unescape_newlines(a.skip(1)) + unescape_newlines(b));
    }
}

/// Every escaped newline unescapes alike: a backslash and a newline become
/// one newline wherever they stand, as long as the backslash is not itself
/// the second half of a pair, and the text on either side unescapes on its
/// own.
pub proof fn lemma_escaped_newline_unescapes(a: Seq<char>, b: Seq<char>)
    requires
        a.len() == 0 || a.last() != '\\',
    ensures
        unescape_newlines(a + seq!['\\', '\n'] + b) == unescape_newlines(a) + seq!['\n'] + unescape_newlines(b),
{
    let pair = seq!['\\', '\n'];
    assert(a + pair + b =~= a + (pair + b));
    lemma_unescape_concat(a, pair + b);
    assert((pair + b).skip(2) =~= b);
    assert(unescape_newlines(pair + b) == seq!['\n'] + unescape_newlines(b));
    assert(unescape_newlines(a) + (seq!['\n'] + unescape_newlines(b)) =~= unescape_newlines(a) + seq!['\n']
        + unescape_newlines(b));
}

pub open spec fn trim_newlines(s: Seq<char>) -> Seq<char>
    decreases s.len(),
{
    if s.len() > 0 && s.last() == '\n' {
        trim_newlines(s.drop_last())
    } else {
        s
    }
}

/// The display string of stored command bytes: decoded lossily, escaped
/// newlines unescaped, and storage-only trailing newlines dropped.
pub open spec fn display_text(command: Seq<u8>) -> Seq<char> {
    trim_newlines(unescape_newlines(utf8_lossy(command)))
}

/// `entry` is the parsed form of the stored entry `stored`.
pub open spec fn models(entry: HistoryEntry, stored: StoredEntry) -> bool {
    &&& entry.raw@ == stored.0
    &&& entry.command@ == display_text(stored.1)
}

/// The items below `n` whose index is not in `targets`, in order.
pub open spec fn retained<T>(items: Seq<T>, targets: Set<usize>, n: int) -> Seq<T>
    decreases n,
{
    if n <= 0 {
        Seq::empty()
    } else if targets.contains((n - 1) as usize) {
        retained(items, targets, n - 1)
    } else {
        retained(items, targets, n - 1).push(items[n - 1])
    }
}

/// All raw bytes of `entries`, in order.
pub open spec fn raw_bytes(entries: Seq<HistoryEntry>) -> Seq<u8>
    decreases entries.len(),
{
    if entries.len() == 0 {
        Seq::empty()
    } else {
        raw_bytes(entries.drop_last()) + entries.last().raw@
    }
}


/// Where the line starting at `pos` ends.
fn find_line_end(data: &[u8], pos: usize) -> (r: usize)
    requires
        pos < data@.len(),
    ensures
        r == line_end(data@, pos as int),
{
    let mut i = pos;
    while i < data.len()
        invariant
            pos <= i <= data@.len(),
            line_end(data@, i as int) == line_end(data@, pos as int),
            forall|j: int| pos <= j < i ==> data@[j] != newline(),
        decreases data@.len() - i,
    {
        if data[i] == 0x0a {
            return i + 1;
        }
        i = i + 1;
    }
    i
}

fn strip_eol_bytes(line: &[u8]) -> (r: &[u8])
    ensures
        r@ == strip_eol(line@),
{
    let line = if line.len() > 0 && line[line.len() - 1] == 0x0a {
        &line[0..line.len() - 1]
    } else {
        line
    };
    if line.len() > 0 && line[line.len() - 1] == 0x0d {
        &line[0..line.len() - 1]
    } else {
        line
    }
}

/// Splits at the first `sep`, requiring everything before it to be digits.
fn split_digits_bytes(line: &[u8], sep: u8) -> (r: Option<(&[u8], &[u8])>)
    ensures
        match (r, split_digits(line@, sep)) {
            (Some((head, tail)), Some((h, t))) => head@ == h && tail@ == t,
            (None, None) => true,
            _ => false,
        },
{
    let mut at: usize = 0;
    while at < line.len() && line[at] != sep
        invariant
            at <= line@.len(),
            find_byte(line@, sep, at as int) == find_byte(line@, sep, 0),
        decreases line@.len() - at,
    {
        at = at + 1;
    }
    if at == line.len() {
        return None;
    }
    assert(find_byte(line@, sep, at as int) == at);
    let mut i: usize = 0;
    while i < at
        invariant
            at < line@.len(),
            find_byte(line@, sep, 0) == at,
            i <= at,
            forall|j: int| 0 <= j < i ==> is_digit(#[trigger] line@[j]),
        decreases at - i,
    {
        if !(0x30 <= line[i] && line[i] <= 0x39) {
            assert(!is_digit(line@[i as int]));
            return None;
        }
        i = i + 1;
    }
    Some((&line[0..at], &line[at + 1..line.len()]))
}

/// Returns the command bytes of a `: <timestamp>:<duration>;<command>` header.
fn header_command_bytes(line: &[u8]) -> (r: Option<&[u8]>)
    ensures
        match (r, header_command(line@)) {
            (Some(c), Some(d)) => c@ == d,
            (None, None) => true,
            _ => false,
        },
{
    if !(line.len() >= 2 && line[0] == 0x3a && line[1] == 0x20) {
        return None;
    }
    let rest = &line[2..line.len()];
    assert(rest@ =~= line@.skip(2));
    match split_digits_bytes(rest, 0x3a) {
        None => None,
        Some((stamp, rest)) => {
            if stamp.len() == 0 {
                None
            } else {
                match split_digits_bytes(rest, 0x3b) {
                    None => None,
                    Some((_duration, command)) => Some(command),
                }
            }
        },
    }
}

/// Turns stored command bytes into a display string: `\` + newline is an
/// escaped newline, and storage-only trailing newlines are dropped.
fn display_command(command: &[u8]) -> (r: String)
    ensures
        r@ == display_text(command@),
{
    let decoded = decode_utf8_lossy(command);
    unescape_command(decoded.as_str())
}

/// The display form of a decoded command: each `\` + newline becomes a
/// newline, and trailing newlines are dropped.
pub fn unescape_command(decoded: &str) -> (r: String)
    ensures
        r@ == trim_newlines(unescape_newlines(decoded@)),
{
    let mut chars: Vec<char> = Vec::new();
    for c in it: decoded.chars()
        invariant
            chars@ == it.seq().take(it.index() as int),
    {
        chars.push(c);
    }
    let ghost text = decoded@;
    assert(chars@ == text);

    let mut unescaped: Vec<char> = Vec::new();
    let mut i: usize = 0;
    while i < chars.len()
        invariant
            chars@ == text,
            i <= chars@.len(),
            unescaped@ + unescape_newlines(text.skip(i as int)) == unescape_newlines(text),
        decreases chars@.len() - i,
    {
        let ghost rest = text.skip(i as int);
        if chars[i] == '\\' && i + 1 < chars.len() && chars[i + 1] == '\n' {
            assert(rest.skip(2) =~= text.skip(i + 2));
            unescaped.push('\n');
            i = i + 2;
        } else {
            assert(rest.skip(1) =~= text.skip(i + 1));
            unescaped.push(chars[i]);
            i = i + 1;
        }
    }
    assert(text.skip(i as int) =~= Seq::<char>::empty());
    assert(unescaped@ =~= unescape_newlines(text));

    let mut end: usize = unescaped.len();
    assert(unescaped@.take(end as int) =~= unescaped@);
    while end > 0 && unescaped[end - 1] == '\n'
        invariant
            end <= unescaped@.len(),
            trim_newlines(unescaped@.take(end as int)) == trim_newlines(unescaped@),
        decreases end,
    {
        assert(unescaped@.take(end as int).drop_last() =~= unescaped@.take(end - 1));
        end = end - 1;
    }
    let mut out = String::new();
    let mut k: usize = 0;
    while k < end
        invariant
            end <= unescaped@.len(),
            k <= end,
            out@ == unescaped@.take(k as int),
        decreases end - k,
    {
        assert(unescaped@.take(k + 1) =~= unescaped@.take(k as int).push(unescaped@[k as int]));
        push_char(&mut out, unescaped[k]);
        k = k + 1;
    }
    assert(trim_newlines(unescaped@.take(end as int)) == unescaped@.take(end as int));
    out
}


/// Moves the entry being accumulated, if there is one, into `entries`.
fn flush(entries: &mut Vec<HistoryEntry>, raw: &mut Vec<u8>, command: &mut Vec<u8>, open: &mut bool)
    ensures
        *old(open) ==> {
            &&& final(entries)@.len() == old(entries)@.len() + 1
            &&& final(entries)@.drop_last() == old(entries)@
            &&& models(final(entries)@.last(), (old(raw)@, old(command)@))
            &&& final(raw)@.len() == 0
            &&& final(command)@.len() == 0
        },
        !*old(open) ==> {
            &&& final(entries)@ == old(entries)@
            &&& final(raw)@ == old(raw)@
            &&& final(command)@ == old(command)@
        },
        !*final(open),
{
    if *open {
        let mut taken: Vec<u8> = Vec::new();
        std::mem::swap(&mut taken, raw);
        let shown = display_command(command.as_slice());
        let ghost before = entries@;
        entries.push(HistoryEntry { command: shown, raw: taken });
        assert(entries@.drop_last() =~= before);
        command.clear();
        *open = false;
    }
}

fn append_bytes(target: &mut Vec<u8>, bytes: &[u8])
    ensures
        final(target)@ == old(target)@ + bytes@,
{
    let mut i: usize = 0;
    while i < bytes.len()
        invariant
            i <= bytes@.len(),
            target@ == old(target)@ + bytes@.take(i as int),
        decreases bytes@.len() - i,
    {
        assert(bytes@.take(i + 1) =~= bytes@.take(i as int).push(bytes@[i as int]));
        target.push(bytes[i]);
        i = i + 1;
    }
    assert(bytes@.take(i as int) =~= bytes@);
}

/// Splits raw history bytes into entries. Grouping follows zsh's own rules,
/// so a file written back unchanged reads back identically, and so does one
/// written after deleting entries, unless a kept entry that starts with a
/// plain line ends up right after a kept entry whose last line ends with a
/// backslash: that line then reads back as a continuation.
pub fn parse(data: &[u8]) -> (r: Vec<HistoryEntry>)
    ensures
        r@.len() == stored_entries(data@).len(),
        forall|i: int| 0 <= i < r@.len() ==> models(#[trigger] r@[i], stored_entries(data@)[i]),
{
    let mut entries: Vec<HistoryEntry> = Vec::new();
    // Raw bytes and command bytes of the entry being accumulated.
    let mut pending_raw: Vec<u8> = Vec::new();
    let mut pending_cmd: Vec<u8> = Vec::new();
    let mut open = false;
    // Set by the previous line: a trailing backslash means the next line
    // continues this entry.
    let mut continues = false;
    let mut pos: usize = 0;
    let ghost mut acc: Seq<StoredEntry> = Seq::empty();

    while pos < data.len()
        invariant
            pos <= data@.len(),
            entries_from(data@, pos as int, acc, continues) == stored_entries(data@),
            acc.len() == entries@.len() + if open { 1int } else { 0int },
            open <==> acc.len() > 0,
            forall|i: int| 0 <= i < entries@.len() ==> models(#[trigger] entries@[i], acc[i]),
            open ==> acc.last() == (pending_raw@, pending_cmd@),
            !open ==> pending_raw@.len() == 0 && pending_cmd@.len() == 0,
        decreases data@.len() - pos,
    {
        let end = find_line_end(data, pos);
        proof {
            lemma_line_end_bounds(data@, pos as int);
        }
        let line = &data[pos..end];
        let bare = strip_eol_bytes(line);
        let ghost next = add_line(acc, line@, continues);
        let ghost before = entries@;
        match header_command_bytes(bare) {
            Some(command) => {
                flush(&mut entries, &mut pending_raw, &mut pending_cmd, &mut open);
                append_bytes(&mut pending_raw, line);
                append_bytes(&mut pending_cmd, command);
                open = true;
            },
            None => {
                if continues && open {
                    append_bytes(&mut pending_raw, line);
                    pending_cmd.push(0x0a);
                    append_bytes(&mut pending_cmd, bare);
                } else {
                    flush(&mut entries, &mut pending_raw, &mut pending_cmd, &mut open);
                    append_bytes(&mut pending_raw, line);
                    append_bytes(&mut pending_cmd, bare);
                    open = true;
                }
            },
        }
        proof {
            assert forall|i: int| 0 <= i < entries@.len() implies models(#[trigger] entries@[i], next[i]) by {
                if i < before.len() {
                    assert(entries@[i] == before[i]);
                }
            }
            acc = next;
        }
        continues = bare.len() > 0 && bare[bare.len() - 1] == 0x5c;
        pos = end;
    }
    let ghost before = entries@;
    flush(&mut entries, &mut pending_raw, &mut pending_cmd, &mut open);
    proof {
        assert(acc == stored_entries(data@));
        assert forall|i: int| 0 <= i < entries@.len() implies models(#[trigger] entries@[i], acc[i]) by {
            if i < before.len() {
                assert(entries@[i] == before[i]);
            }
        }
    }
    entries
}

/// The bytes a history file holds after a rewrite: exactly the raw bytes of
/// `entries`, in order.
pub fn encode(entries: &[HistoryEntry]) -> (r: Vec<u8>)
    ensures
        r@ == raw_bytes(entries@),
{
    let mut buf: Vec<u8> = Vec::new();
    let mut i: usize = 0;
    while i < entries.len()
        invariant
            i <= entries@.len(),
            buf@ == raw_bytes(entries@.take(i as int)),
        decreases entries@.len() - i,
    {
        assert(entries@.take(i + 1).drop_last() =~= entries@.take(i as int));
        append_bytes(&mut buf, entries[i].raw.as_slice());
        i = i + 1;
    }
    assert(entries@.take(i as int) =~= entries@);
    buf
}


/// All raw bytes of stored entries, in order.
pub open spec fn stored_bytes(entries: Seq<StoredEntry>) -> Seq<u8>
    decreases entries.len(),
{
    if entries.len() == 0 {
        Seq::empty()
    } else {
        stored_bytes(entries.drop_last()) + entries.last().0
    }
}

proof fn lemma_add_line_bytes(entries: Seq<StoredEntry>, line: Seq<u8>, continues: bool)
    ensures
        stored_bytes(add_line(entries, line, continues)) == stored_bytes(entries) + line,
{
    let next = add_line(entries, line, continues);
    if next.len() == entries.len() {
        assert(next.drop_last() =~= entries.drop_last());
        assert(stored_bytes(next) =~= stored_bytes(entries) + line);
    } else {
        assert(next.drop_last() =~= entries);
    }
}

proof fn lemma_entries_from_bytes(data: Seq<u8>, pos: int, entries: Seq<StoredEntry>, continues: bool)
    requires
        0 <= pos <= data.len(),
    ensures
        stored_bytes(entries_from(data, pos, entries, continues)) == stored_bytes(entries)
            + data.subrange(pos, data.len() as int),
    decreases data.len() - pos,
{
    if pos < data.len() {
        let end = line_end(data, pos);
        lemma_line_end_bounds(data, pos);
        let line = data.subrange(pos, end);
        lemma_add_line_bytes(entries, line, continues);
        lemma_entries_from_bytes(
            data,
            end,
            add_line(entries, line, continues),
            ends_with_backslash(strip_eol(line)),
        );
        assert(data.subrange(pos, data.len() as int) =~= line + data.subrange(end, data.len() as int));
    } else {
        assert(data.subrange(pos, data.len() as int) =~= Seq::<u8>::empty());
    }
}

proof fn lemma_models_bytes(entries: Seq<HistoryEntry>, stored: Seq<StoredEntry>)
    requires
        entries.len() == stored.len(),
        forall|i: int| 0 <= i < entries.len() ==> models(#[trigger] entries[i], stored[i]),
    ensures
        raw_bytes(entries) == stored_bytes(stored),
    decreases entries.len(),
{
    if entries.len() > 0 {
        let a = entries.drop_last();
        let b = stored.drop_last();
        assert forall|i: int| 0 <= i < a.len() implies models(#[trigger] a[i], b[i]) by {
            assert(a[i] == entries[i]);
            assert(b[i] == stored[i]);
        }
        lemma_models_bytes(a, b);
    }
}

/// Round trip: the entries `parse` finds in a file, written back by `encode`,
/// are the file's bytes exactly.
pub proof fn lemma_parse_encode_roundtrip(data: Seq<u8>, entries: Seq<HistoryEntry>)
    requires
        entries.len() == stored_entries(data).len(),
        forall|i: int| 0 <= i < entries.len() ==> models(#[trigger] entries[i], stored_entries(data)[i]),
    ensures
        raw_bytes(entries) == data,
        stored_entries(raw_bytes(entries)) == stored_entries(data),
{
    lemma_models_bytes(entries, stored_entries(data));
    lemma_entries_from_bytes(data, 0, Seq::empty(), false);
    assert(stored_bytes(Seq::<StoredEntry>::empty()) =~= Seq::<u8>::empty());
    assert(data.subrange(0, data.len() as int) =~= data);
}

/// The continuation flag after the lines of `data` from `pos` on: whether the
/// last of them ends with a backslash, or `continues` when there is none.
pub open spec fn continues_after(data: Seq<u8>, pos: int, continues: bool) -> bool
    decreases data.len() - pos,
{
    if pos < 0 || pos >= data.len() {
        continues
    } else {
        let end = line_end(data, pos);
        proof {
            lemma_line_end_bounds(data, pos);
        }
        continues_after(data, end, ends_with_backslash(strip_eol(data.subrange(pos, end))))
    }
}

/// Whether the last line of `raw` ends with a backslash.
pub open spec fn tail_continues(raw: Seq<u8>) -> bool {
    continues_after(raw, 0, false)
}

/// Whether the first line of `raw` is a `: <timestamp>:<duration>;` header.
pub open spec fn starts_with_header(raw: Seq<u8>) -> bool {
    header_command(strip_eol(raw.subrange(0, line_end(raw, 0)))) is Some
}

/// Whether `raw`, read after `count` entries and a line whose backslash
/// flag is `continues`, starts an entry of its own.
pub open spec fn starts_fresh(raw: Seq<u8>, continues: bool, count: nat) -> bool {
    starts_with_header(raw) || !continues || count == 0
}

/// `raw` ends with a newline.
pub open spec fn ends_line(raw: Seq<u8>) -> bool {
    raw.len() > 0 && raw.last() == newline()
}

/// The stored entry `entry` reads back as itself wherever it starts an entry
/// of its own.
pub open spec fn reads_back(entry: StoredEntry) -> bool {
    &&& entry.0.len() > 0
    &&& forall|acc: Seq<StoredEntry>, continues: bool|
        starts_fresh(entry.0, continues, acc.len()) ==> #[trigger] entries_from(entry.0, 0, acc, continues)
            == acc.push(entry)
}

/// The backslash flag of the last entry below `n` that is not in `targets`,
/// or `false` when there is none.
pub open spec fn kept_tail(stored: Seq<StoredEntry>, targets: Set<usize>, n: int) -> bool
    decreases n,
{
    if n <= 0 {
        false
    } else if targets.contains((n - 1) as usize) {
        kept_tail(stored, targets, n - 1)
    } else {
        tail_continues(stored[n - 1].0)
    }
}

/// No entry kept apart from `targets` that starts with a plain line comes
/// right after a kept entry whose last line ends with a backslash: read back,
/// that line would continue the entry before it.
pub open spec fn survivors_stay_apart(stored: Seq<StoredEntry>, targets: Set<usize>) -> bool {
    forall|i: int|
        #![trigger stored[i]]
        0 <= i < stored.len() && !targets.contains(i as usize) && kept_tail(stored, targets, i)
            ==> starts_with_header(stored[i].0)
}

proof fn lemma_line_end_prefix(x: Seq<u8>, y: Seq<u8>, p: int)
    requires
        ends_line(x),
        0 <= p < x.len(),
    ensures
        line_end(x + y, p) == line_end(x, p),
    decreases x.len() - p,
{
    assert((x + y)[p] == x[p]);
    if x[p] != newline() {
        lemma_line_end_prefix(x, y, p + 1);
    }
}

proof fn lemma_line_end_shift(x: Seq<u8>, y: Seq<u8>, q: int)
    requires
        x.len() <= q < x.len() + y.len(),
    ensures
        line_end(x + y, q) == x.len() + line_end(y, q - x.len()),
    decreases x.len() + y.len() - q,
{
    assert((x + y)[q] == y[q - x.len()]);
    if y[q - x.len()] != newline() {
        if q + 1 < x.len() + y.len() {
            lemma_line_end_shift(x, y, q + 1);
        } else {
            assert(line_end(x + y, q + 1) == x.len() + y.len());
            assert(line_end(y, q + 1 - x.len()) == y.len());
        }
    }
}

/// Reading the lines of `x + y` from a position inside `y` is reading `y`.
proof fn lemma_entries_from_shift(x: Seq<u8>, y: Seq<u8>, q: int, acc: Seq<StoredEntry>, continues: bool)
    requires
        x.len() <= q <= x.len() + y.len(),
    ensures
        entries_from(x + y, q, acc, continues) == entries_from(y, q - x.len(), acc, continues),
        continues_after(x + y, q, continues) == continues_after(y, q - x.len(), continues),
    decreases x.len() + y.len() - q,
{
    if q < x.len() + y.len() {
        let end = line_end(x + y, q);
        lemma_line_end_shift(x, y, q);
        lemma_line_end_bounds(x + y, q);
        let line = (x + y).subrange(q, end);
        assert(line =~= y.subrange(q - x.len(), end - x.len()));
        lemma_entries_from_shift(
            x,
            y,
            end,
            add_line(acc, line, continues),
            ends_with_backslash(strip_eol(line)),
        );
    }
}

/// Reading the lines of `x + y`, where `x` ends with a newline, is reading
/// those of `x` and then going on in `y`.
proof fn lemma_entries_from_prefix(x: Seq<u8>, y: Seq<u8>, p: int, acc: Seq<StoredEntry>, continues: bool)
    requires
        x.len() == 0 || ends_line(x),
        0 <= p <= x.len(),
    ensures
        entries_from(x + y, p, acc, continues) == entries_from(
            x + y,
            x.len() as int,
            entries_from(x, p, acc, continues),
            continues_after(x, p, continues),
        ),
        continues_after(x + y, p, continues) == continues_after(
            x + y,
            x.len() as int,
            continues_after(x, p, continues),
        ),
    decreases x.len() - p,
{
    if p < x.len() {
        let end = line_end(x, p);
        lemma_line_end_prefix(x, y, p);
        lemma_line_end_bounds(x, p);
        let line = x.subrange(p, end);
        assert((x + y).subrange(p, end) =~= line);
        lemma_entries_from_prefix(
            x,
            y,
            end,
            add_line(acc, line, continues),
            ends_with_backslash(strip_eol(line)),
        );
    }
}

/// A line holds no newline but possibly its last byte, and ends with one
/// unless the data ends first.
proof fn lemma_line_shape(data: Seq<u8>, pos: int)
    requires
        0 <= pos < data.len(),
    ensures
        forall|i: int| pos <= i < line_end(data, pos) - 1 ==> data[i] != newline(),
        line_end(data, pos) == data.len() || data[line_end(data, pos) - 1] == newline(),
    decreases data.len() - pos,
{
    lemma_line_end_bounds(data, pos);
    if data[pos] != newline() && pos + 1 < data.len() {
        lemma_line_shape(data, pos + 1);
    }
}

proof fn lemma_line_end_single(line: Seq<u8>, k: int)
    requires
        0 <= k < line.len(),
        forall|i: int| 0 <= i < line.len() - 1 ==> line[i] != newline(),
    ensures
        line_end(line, k) == line.len(),
    decreases line.len() - k,
{
    if k + 1 < line.len() {
        lemma_line_end_single(line, k + 1);
    } else if line[k] != newline() {
        assert(line_end(line, k + 1) == line.len());
    }
}

/// Reading a single line.
proof fn lemma_single_line(line: Seq<u8>, acc: Seq<StoredEntry>, continues: bool)
    requires
        line.len() > 0,
        forall|i: int| 0 <= i < line.len() - 1 ==> line[i] != newline(),
    ensures
        line_end(line, 0) == line.len(),
        line.subrange(0, line.len() as int) == line,
        entries_from(line, 0, acc, continues) == add_line(acc, line, continues),
        continues_after(line, 0, continues) == ends_with_backslash(strip_eol(line)),
{
    lemma_line_end_single(line, 0);
    assert(line.subrange(0, line.len() as int) =~= line);
    let next = add_line(acc, line, continues);
    let flag = ends_with_backslash(strip_eol(line));
    assert(entries_from(line, line.len() as int, next, flag) == next);
    assert(continues_after(line, line.len() as int, flag) == flag);
}

/// Every entry of a file reads back as itself wherever it starts an entry of
/// its own, and every entry but the last ends with a newline.
proof fn lemma_entries_read_back(data: Seq<u8>, pos: int, acc: Seq<StoredEntry>, continues: bool)
    requires
        0 <= pos <= data.len(),
        forall|i: int| 0 <= i < acc.len() - 1 ==> reads_back(#[trigger] acc[i]) && ends_line(acc[i].0),
        acc.len() > 0 ==> {
            &&& reads_back(acc.last())
            &&& tail_continues(acc.last().0) == continues
            &&& (ends_line(acc.last().0) || pos == data.len())
        },
    ensures
        forall|i: int|
            0 <= i < entries_from(data, pos, acc, continues).len() - 1 ==> reads_back(
                #[trigger] entries_from(data, pos, acc, continues)[i],
            ) && ends_line(entries_from(data, pos, acc, continues)[i].0),
        entries_from(data, pos, acc, continues).len() > 0 ==> reads_back(
            entries_from(data, pos, acc, continues).last(),
        ),
    decreases data.len() - pos,
{
    if pos < data.len() {
        let end = line_end(data, pos);
        lemma_line_end_bounds(data, pos);
        lemma_line_shape(data, pos);
        let line = data.subrange(pos, end);
        let bare = strip_eol(line);
        let flag = ends_with_backslash(bare);
        let next = add_line(acc, line, continues);
        assert forall|i: int| 0 <= i < line.len() - 1 implies line[i] != newline() by {
            assert(line[i] == data[pos + i]);
        }
        assert(ends_line(line) || end == data.len()) by {
            if end < data.len() {
                assert(line.last() == data[end - 1]);
            }
        }
        lemma_single_line(line, acc, continues);
        match header_command(bare) {
            Some(command) => {
                let entry = (line, command);
                assert forall|a: Seq<StoredEntry>, c: bool|
                    starts_fresh(line, c, a.len()) implies #[trigger] entries_from(line, 0, a, c) == a.push(
                    entry,
                ) by {
                    lemma_single_line(line, a, c);
                }
            },
            None => {
                if continues && acc.len() > 0 {
                    let last = acc.last();
                    let raw = last.0 + line;
                    let grown = (raw, last.1.push(newline()) + bare);
                    assert(next == acc.update(acc.len() - 1, grown));
                    lemma_line_end_prefix(last.0, line, 0);
                    lemma_line_end_bounds(last.0, 0);
                    assert(raw.subrange(0, line_end(raw, 0)) =~= last.0.subrange(0, line_end(last.0, 0)));
                    assert forall|a: Seq<StoredEntry>, c: bool|
                        starts_fresh(raw, c, a.len()) implies #[trigger] entries_from(raw, 0, a, c) == a.push(
                        grown,
                    ) by {
                        assert(entries_from(last.0, 0, a, c) == a.push(last));
                        lemma_entries_from_prefix(last.0, line, 0, a, c);
                        assert(continues_after(last.0, 0, c) == continues);
                        lemma_entries_from_shift(last.0, line, last.0.len() as int, a.push(last), continues);
                        lemma_single_line(line, a.push(last), continues);
                        assert(a.push(last).update(a.len() as int, grown) =~= a.push(grown));
                    }
                    lemma_entries_from_prefix(last.0, line, 0, Seq::empty(), false);
                    lemma_entries_from_shift(
                        last.0,
                        line,
                        last.0.len() as int,
                        Seq::empty(),
                        tail_continues(last.0),
                    );
                    lemma_single_line(line, Seq::empty(), tail_continues(last.0));
                    assert(raw.last() == line.last());
                    assert forall|i: int| 0 <= i < next.len() - 1 implies reads_back(#[trigger] next[i])
                        && ends_line(next[i].0) by {
                        assert(next[i] == acc[i]);
                    }
                } else {
                    let entry = (line, bare);
                    assert forall|a: Seq<StoredEntry>, c: bool|
                        starts_fresh(line, c, a.len()) implies #[trigger] entries_from(line, 0, a, c) == a.push(
                        entry,
                    ) by {
                        lemma_single_line(line, a, c);
                    }
                }
            },
        }
        lemma_single_line(line, Seq::empty(), false);
        lemma_entries_read_back(data, end, next, flag);
    }
}

proof fn lemma_retained_push<T>(items: Seq<T>, targets: Set<usize>, n: int)
    requires
        0 < n,
        !targets.contains((n - 1) as usize),
    ensures
        retained(items, targets, n).drop_last() == retained(items, targets, n - 1),
        retained(items, targets, n).last() == items[n - 1],
        retained(items, targets, n).len() > 0,
{
    assert(retained(items, targets, n).drop_last() =~= retained(items, targets, n - 1));
}

/// The kept entries below `m`, all ending with a newline, end with one
/// together.
proof fn lemma_kept_bytes_end(stored: Seq<StoredEntry>, targets: Set<usize>, m: int)
    requires
        0 <= m <= stored.len(),
        forall|i: int| 0 <= i < m ==> ends_line(#[trigger] stored[i].0),
    ensures
        stored_bytes(retained(stored, targets, m)).len() == 0 || ends_line(
            stored_bytes(retained(stored, targets, m)),
        ),
    decreases m,
{
    if m > 0 {
        lemma_kept_bytes_end(stored, targets, m - 1);
        if !targets.contains((m - 1) as usize) {
            lemma_retained_push(stored, targets, m);
            let kept = stored[m - 1].0;
            assert(ends_line(kept));
            assert(stored_bytes(retained(stored, targets, m)) == stored_bytes(retained(stored, targets, m - 1))
                + kept);
        }
    }
}

/// The kept entries below `n`, written out and read back, are themselves.
proof fn lemma_kept_read_back(stored: Seq<StoredEntry>, targets: Set<usize>, n: int)
    requires
        0 <= n <= stored.len(),
        forall|i: int| 0 <= i < stored.len() ==> reads_back(#[trigger] stored[i]),
        forall|i: int| 0 <= i < stored.len() - 1 ==> ends_line(#[trigger] stored[i].0),
        survivors_stay_apart(stored, targets),
    ensures
        entries_from(stored_bytes(retained(stored, targets, n)), 0, Seq::empty(), false) == retained(
            stored,
            targets,
            n,
        ),
        continues_after(stored_bytes(retained(stored, targets, n)), 0, false) == kept_tail(
            stored,
            targets,
            n,
        ),
    decreases n,
{
    if n > 0 {
        lemma_kept_read_back(stored, targets, n - 1);
        if !targets.contains((n - 1) as usize) {
            let before = retained(stored, targets, n - 1);
            let head = stored_bytes(before);
            let entry = stored[n - 1];
            let tail = kept_tail(stored, targets, n - 1);
            lemma_retained_push(stored, targets, n);
            assert(stored_bytes(retained(stored, targets, n)) == head + entry.0);
            lemma_kept_bytes_end(stored, targets, n - 1);
            lemma_entries_from_prefix(head, entry.0, 0, Seq::empty(), false);
            lemma_entries_from_shift(head, entry.0, head.len() as int, before, tail);
            assert(reads_back(entry));
            assert(starts_fresh(entry.0, tail, before.len()));
            assert(entries_from(entry.0, 0, before, tail) == before.push(entry));
            assert(continues_after(entry.0, 0, tail) == tail_continues(entry.0));
        }
    } else {
        assert(stored_bytes(retained(stored, targets, n)) =~= Seq::<u8>::empty());
    }
}

proof fn lemma_models_retained(entries: Seq<HistoryEntry>, stored: Seq<StoredEntry>, targets: Set<usize>, n: int)
    requires
        0 <= n <= entries.len(),
        entries.len() == stored.len(),
        forall|i: int| 0 <= i < entries.len() ==> models(#[trigger] entries[i], stored[i]),
    ensures
        retained(entries, targets, n).len() == retained(stored, targets, n).len(),
        forall|k: int|
            0 <= k < retained(entries, targets, n).len() ==> models(
                #[trigger] retained(entries, targets, n)[k],
                retained(stored, targets, n)[k],
            ),
    decreases n,
{
    if n > 0 {
        lemma_models_retained(entries, stored, targets, n - 1);
    }
}

/// Deleting keeps every surviving entry's bytes as read: when `entries` were
/// parsed from `data`, the file written without the entries at `targets` is
/// the survivors as stored, each with its bytes as read, in file order; and
/// the stored entries together make up `data`.
pub proof fn lemma_delete_keeps_bytes(data: Seq<u8>, entries: Seq<HistoryEntry>, targets: Set<usize>)
    requires
        entries.len() == stored_entries(data).len(),
        forall|i: int| 0 <= i < entries.len() ==> models(#[trigger] entries[i], stored_entries(data)[i]),
    ensures
        raw_bytes(retained(entries, targets, entries.len() as int)) == stored_bytes(
            retained(stored_entries(data), targets, entries.len() as int),
        ),
        stored_bytes(stored_entries(data)) == data,
{
    let stored = stored_entries(data);
    let n = entries.len() as int;
    lemma_models_retained(entries, stored, targets, n);
    lemma_models_bytes(retained(entries, targets, n), retained(stored, targets, n));
    lemma_entries_from_bytes(data, 0, Seq::empty(), false);
    assert(stored_bytes(Seq::<StoredEntry>::empty()) =~= Seq::<u8>::empty());
    assert(data.subrange(0, data.len() as int) =~= data);
}

/// A rewritten file reads back as the surviving entries: parsing the file
/// written without the entries at `targets` gives the other entries of
/// `data` as stored, in order. This holds unless a surviving entry that
/// starts with a plain line comes right after a surviving entry whose last
/// line ends with a backslash, which reads back as one entry.
pub proof fn lemma_rewrite_reads_back(data: Seq<u8>, entries: Seq<HistoryEntry>, targets: Set<usize>)
    requires
        entries.len() == stored_entries(data).len(),
        forall|i: int| 0 <= i < entries.len() ==> models(#[trigger] entries[i], stored_entries(data)[i]),
        survivors_stay_apart(stored_entries(data), targets),
    ensures
        stored_entries(raw_bytes(retained(entries, targets, entries.len() as int))) == retained(
            stored_entries(data),
            targets,
            entries.len() as int,
        ),
{
    let stored = stored_entries(data);
    lemma_delete_keeps_bytes(data, entries, targets);
    lemma_entries_read_back(data, 0, Seq::empty(), false);
    assert forall|i: int| 0 <= i < stored.len() implies reads_back(#[trigger] stored[i]) by {
        if i < stored.len() - 1 {
            assert(reads_back(stored[i]) && ends_line(stored[i].0));
        }
    }
    assert forall|i: int| 0 <= i < stored.len() - 1 implies ends_line(#[trigger] stored[i].0) by {
        assert(reads_back(stored[i]) && ends_line(stored[i].0));
    }
    lemma_kept_read_back(stored, targets, stored.len() as int);
}

} // verus!
