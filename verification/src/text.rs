//! Turning stored command text into printable, wrapped rows.
//!
//! Commands are stored bytes decoded lossily, so they can contain anything:
//! control characters from pasted escapes, embedded newlines from multi-line
//! entries, and characters wider than one column. Rendering and the scroll math
//! in `App` must agree on how many rows a command occupies, so both go through
//! here.

use unicode_width::UnicodeWidthChar;
use vstd::prelude::*;

use crate::strings::{char_is_control, is_control_char, push_char};

verus! {

/// The display width `unicode_width` gives a character, `None` for a control
/// character.
pub uninterp spec fn unicode_char_width(c: char) -> Option<usize>;

/// Calls `UnicodeWidthChar::width` of the `unicode_width` crate. Its source
/// answers `None` exactly for U+0000..U+001F and U+007F..U+009F, `Some(1)` for
/// the other ASCII characters, and otherwise a table entry; the table itself
/// is left to the name `unicode_char_width`.
#[verifier::external_body]
fn char_width(c: char) -> (r: Option<usize>)
    ensures
        r == unicode_char_width(c),
        r is None <==> is_control_char(c),
        is_printable_ascii(c) ==> r == Some(1usize),
{
    UnicodeWidthChar::width(c)
}

/// `c` is a printable ASCII character, U+0020 to U+007E.
pub open spec fn is_printable_ascii(c: char) -> bool {
    0x20 <= (c as u32) && (c as u32) < 0x7f
}

/// Columns a character occupies on screen: control characters take none.
pub open spec fn cell(c: char) -> nat {
    match unicode_char_width(c) {
        Some(w) => w as nat,
        None => 0,
    }
}

/// Columns the characters of `s` occupy together.
pub open spec fn cells(s: Seq<char>) -> nat
    decreases s.len(),
{
    if s.len() == 0 {
        0
    } else {
        cells(s.drop_last()) + cell(s.last())
    }
}

fn cell_width(c: char) -> (r: usize)
    ensures
        r == cell(c),
        is_printable_ascii(c) ==> r == 1,
        is_control_char(c) ==> r == 0,
{
    match char_width(c) {
        Some(w) => w,
        None => 0,
    }
}

/// The printable stand-in for one character: a newline becomes `⏎`, a tab and
/// every other control character a space.
pub open spec fn sanitize_char(c: char) -> char {
    if c == '\n' {
        '\u{23ce}'
    } else if c == '\t' {
        ' '
    } else if is_control_char(c) {
        ' '
    } else {
        c
    }
}

pub open spec fn sanitized(s: Seq<char>) -> Seq<char> {
    s.map_values(|c: char| sanitize_char(c))
}

/// Replaces control characters with printable stand-ins.
pub fn sanitize(command: &str) -> (r: String)
    ensures
        r@ == sanitized(command@),
{
    let mut out = String::new();
    for c in it: command.chars()
        invariant
            out@ == sanitized(it.seq().take(it.index() as int)),
    {
        let mapped = if c == '\n' {
            '\u{23ce}'
        } else if c == '\t' {
            ' '
        } else if char_is_control(c) {
            ' '
        } else {
            c
        };
        proof {
            assert(it.seq().take(it.index() + 1) =~= it.seq().take(it.index() as int).push(c));
        }
        push_char(&mut out, mapped);
        assert(out@ =~= sanitized(it.seq().take(it.index() + 1)));
    }
    out
}


/// The columns each character of `s` occupies.
pub open spec fn cell_widths(s: Seq<char>) -> Seq<usize> {
    s.map_values(
        |c: char|
            match unicode_char_width(c) {
                Some(w) => w,
                None => 0usize,
            },
    )
}

/// Where the row that has used `used` columns up to position `i` ends, the
/// characters being `widths` columns wide: the first position whose character
/// takes columns and would take the row past `width` columns, or the end. A
/// zero-width character always stays on the row of the character before it.
pub open spec fn row_end(widths: Seq<usize>, width: nat, i: int, used: nat) -> int
    decreases widths.len() - i,
{
    if i >= widths.len() {
        widths.len() as int
    } else if widths[i] > 0 && used + widths[i] > width {
        i
    } else {
        row_end(widths, width, i + 1, (used + widths[i]) as nat)
    }
}

pub proof fn lemma_row_end_bounds(widths: Seq<usize>, width: nat, i: int, used: nat)
    requires
        0 <= i <= widths.len(),
    ensures
        i <= row_end(widths, width, i, used) <= widths.len(),
    decreases widths.len() - i,
{
    if i < widths.len() && !(widths[i] > 0 && used + widths[i] > width) {
        lemma_row_end_bounds(widths, width, i + 1, (used + widths[i]) as nat);
    }
}

/// The rows of `s`, whose characters are `widths` columns wide, from position
/// `start` on: each row takes its first character whatever its width, then
/// every following character while the row stays within `width` columns.
pub open spec fn rows_from(s: Seq<char>, widths: Seq<usize>, width: nat, start: int) -> Seq<Seq<char>>
    decreases widths.len() - start,
{
    if start < 0 || start >= widths.len() {
        Seq::empty()
    } else {
        let end = row_end(widths, width, start + 1, widths[start] as nat);
        proof {
            lemma_row_end_bounds(widths, width, start + 1, widths[start] as nat);
        }
        seq![s.subrange(start, end)] + rows_from(s, widths, width, end)
    }
}

/// `s`, its characters `widths` columns wide, hard-wrapped into rows of
/// `width` columns; an empty text is one empty row.
pub open spec fn wrap_widths(s: Seq<char>, widths: Seq<usize>, width: nat) -> Seq<Seq<char>> {
    if s.len() == 0 {
        seq![Seq::empty()]
    } else {
        rows_from(s, widths, width, 0)
    }
}

/// `s` hard-wrapped into rows of `width` columns.
pub open spec fn wrap(s: Seq<char>, width: nat) -> Seq<Seq<char>> {
    wrap_widths(s, cell_widths(s), width)
}

pub open spec fn at_least_one(width: usize) -> nat {
    if width == 0 { 1 } else { width as nat }
}

/// The columns each character of `text` occupies.
fn char_widths(text: &str) -> (r: Vec<usize>)
    ensures
        r@ == cell_widths(text@),
        forall|i: int| 0 <= i < text@.len() && is_printable_ascii(text@[i]) ==> #[trigger] r@[i] == 1,
        forall|i: int| 0 <= i < text@.len() && is_control_char(text@[i]) ==> #[trigger] r@[i] == 0,
{
    let mut out: Vec<usize> = Vec::new();
    for c in it: text.chars()
        invariant
            it.seq() == text@,
            out@ == cell_widths(it.seq().take(it.index() as int)),
            forall|i: int| 0 <= i < out@.len() && is_printable_ascii(text@[i]) ==> #[trigger] out@[i] == 1,
            forall|i: int| 0 <= i < out@.len() && is_control_char(text@[i]) ==> #[trigger] out@[i] == 0,
    {
        proof {
            assert(it.seq().take(it.index() + 1) =~= it.seq().take(it.index() as int).push(c));
        }
        out.push(cell_width(c));
        assert(out@ =~= cell_widths(it.seq().take(it.index() + 1)));
    }
    proof {
        lemma_take_all(text@);
    }
    out
}

proof fn lemma_take_all<T>(s: Seq<T>)
    ensures
        s.take(s.len() as int) == s,
{
    assert(s.take(s.len() as int) =~= s);
}

/// Hard-wraps `text`, whose characters are `widths` columns wide, into rows
/// of at most `width` columns, cutting on character boundaries. Always
/// returns at least one row.
pub fn split_rows<'a>(text: &'a str, widths: &Vec<usize>, width: usize) -> (r: Vec<&'a str>)
    requires
        widths@.len() == text@.len(),
    ensures
        r@.map_values(|row: &str| row@) == wrap_widths(text@, widths@, at_least_one(width)),
{
    let ghost w0 = at_least_one(width);
    let width: usize = if width == 0 { 1 } else { width };
    let ghost s = text@;
    let ghost ws = widths@;
    let ghost w = width as nat;
    let length = text.unicode_len();
    let mut out: Vec<&str> = Vec::new();
    let mut start: usize = 0;
    let mut used: usize = 0;
    let mut index: usize = 0;

    while index < length
        invariant
            s == text@,
            ws == widths@,
            ws.len() == s.len(),
            length == s.len(),
            w == width,
            w >= 1,
            start <= index <= s.len(),
            index == start ==> start == 0 && used == 0 && out@.len() == 0,
            start < index ==> row_end(ws, w, index as int, used as nat) == row_end(
                ws,
                w,
                start + 1,
                ws[start as int] as nat,
            ),
            out@.map_values(|row: &str| row@) + rows_from(s, ws, w, start as int) == rows_from(s, ws, w, 0),
        decreases length - index,
    {
        let cells = widths[index];
        // A zero-width character never needs a row of its own; otherwise the row
        // is full once the next character would not fit.
        if cells > 0 && (used > width || cells > width - used) && index > start {
            proof {
                assert(row_end(ws, w, index as int, used as nat) == index);
                lemma_row_end_bounds(ws, w, start + 1, ws[start as int] as nat);
            }
            let row = text.substring_char(start, index);
            let ghost before = out@;
            out.push(row);
            proof {
                assert(rows_from(s, ws, w, start as int) =~= seq![s.subrange(start as int, index as int)]
                    + rows_from(s, ws, w, index as int));
                assert(out@.map_values(|row: &str| row@) =~= before.map_values(|row: &str| row@).push(
                    s.subrange(start as int, index as int),
                ));
            }
            start = index;
            used = 0;
        }
        used = used + cells;
        index = index + 1;
    }
    proof {
        assert(index == s.len());
        if start < index {
            lemma_row_end_bounds(ws, w, start + 1, ws[start as int] as nat);
            assert(rows_from(s, ws, w, start as int) =~= seq![s.subrange(start as int, s.len() as int)]
                + rows_from(s, ws, w, s.len() as int));
        }
    }
    let ghost before = out@;
    let row = text.substring_char(start, index);
    out.push(row);
    proof {
        assert(out@.map_values(|row: &str| row@) =~= before.map_values(|row: &str| row@).push(
            s.subrange(start as int, index as int),
        ));
        assert(w0 == w);
        if s.len() == 0 {
            assert(before.len() == 0);
            assert(s.subrange(start as int, index as int) =~= Seq::<char>::empty());
            assert(before.map_values(|row: &str| row@) =~= Seq::<Seq<char>>::empty());
            assert(out@.map_values(|row: &str| row@) =~= wrap_widths(s, ws, w));
        } else {
            assert(rows_from(s, ws, w, s.len() as int) =~= Seq::empty());
            assert(out@.map_values(|row: &str| row@) =~= rows_from(s, ws, w, 0));
        }
    }
    out
}

/// Hard-wraps `text` into rows of at most `width` columns, cutting on character
/// boundaries. Always returns at least one row, so an empty command still
/// occupies a line.
pub fn rows(text: &str, width: usize) -> (r: Vec<&str>)
    ensures
        r@.map_values(|row: &str| row@) == wrap(text@, at_least_one(width)),
        forall|i: int|
            0 <= i < text@.len() && is_printable_ascii(text@[i]) ==> #[trigger] cell_widths(text@)[i] == 1,
        forall|i: int| 0 <= i < text@.len() && is_control_char(text@[i]) ==> #[trigger] cell_widths(text@)[i] == 0,
{
    let widths = char_widths(text);
    split_rows(text, &widths, width)
}

/// Rows `command` occupies when rendered `width` columns wide.
pub fn height(command: &str, width: usize) -> (r: usize)
    ensures
        r == wrap(sanitized(command@), at_least_one(width)).len(),
        r >= 1,
        forall|i: int|
            0 <= i < command@.len() && is_printable_ascii(sanitized(command@)[i]) ==> #[trigger] cell_widths(
                sanitized(command@),
            )[i] == 1,
{
    let shown = sanitize(command);
    let wrapped = rows(shown.as_str(), width);
    proof {
        lemma_wrap(sanitized(command@), at_least_one(width));
    }
    wrapped.len()
}

proof fn lemma_cells_push(s: Seq<char>, start: int, i: int)
    requires
        0 <= start <= i < s.len(),
    ensures
        cells(s.subrange(start, i + 1)) == cells(s.subrange(start, i)) + cell(s[i]),
{
    assert(s.subrange(start, i + 1).drop_last() =~= s.subrange(start, i));
}

/// What the scan of one row guarantees: the row stays within `width` columns
/// unless its first character alone is wider, in which case the rest of it
/// takes no columns; and the row only stops at a character that takes
/// columns and would not fit.
proof fn lemma_row_end_props(s: Seq<char>, width: nat, start: int, i: int, used: nat)
    requires
        0 <= start < i <= s.len(),
        used == cells(s.subrange(start, i)),
    ensures
        i <= row_end(cell_widths(s), width, i, used) <= s.len(),
        used <= width ==> cells(s.subrange(start, row_end(cell_widths(s), width, i, used))) <= width,
        used > width ==> cells(s.subrange(start, row_end(cell_widths(s), width, i, used))) == used,
        row_end(cell_widths(s), width, i, used) < s.len() ==> {
            &&& cell(s[row_end(cell_widths(s), width, i, used)]) > 0
            &&& cells(s.subrange(start, row_end(cell_widths(s), width, i, used))) + cell(
                s[row_end(cell_widths(s), width, i, used)],
            ) > width
        },
    decreases s.len() - i,
{
    if i < s.len() && !(cell(s[i]) > 0 && used + cell(s[i]) > width) {
        lemma_cells_push(s, start, i);
        lemma_row_end_props(s, width, start, i + 1, used + cell(s[i]));
    }
}

/// The first row of `rows_from(s, .., start)` and where the next one starts.
proof fn lemma_first_row(s: Seq<char>, width: nat, start: int)
    requires
        0 <= start < s.len(),
    ensures
        ({
            let end = row_end(cell_widths(s), width, start + 1, cell(s[start]));
            let first = s.subrange(start, end);
            &&& start < end <= s.len()
            &&& rows_from(s, cell_widths(s), width, start) == seq![first] + rows_from(
                s,
                cell_widths(s),
                width,
                end,
            )
            &&& first.len() > 0
            &&& first[0] == s[start]
            &&& (cells(first) <= width || cells(first) == cell(first[0]))
            &&& (cell(s[start]) <= width ==> cells(first) <= width)
            &&& (end < s.len() ==> cell(s[end]) > 0 && cells(first) + cell(s[end]) > width)
        }),
{
    lemma_cells_push(s, start, start);
    assert(s.subrange(start, start) =~= Seq::<char>::empty());
    lemma_row_end_props(s, width, start, start + 1, cell(s[start]));
}

/// The row starting at `end` begins with the character at `end`.
proof fn lemma_row_starts(s: Seq<char>, width: nat, end: int)
    requires
        0 <= end < s.len(),
    ensures
        rows_from(s, cell_widths(s), width, end).len() > 0,
        rows_from(s, cell_widths(s), width, end)[0][0] == s[end],
{
    lemma_first_row(s, width, end);
}

proof fn lemma_rows_flatten(s: Seq<char>, width: nat, start: int)
    requires
        0 <= start <= s.len(),
    ensures
        rows_from(s, cell_widths(s), width, start).flatten() == s.subrange(start, s.len() as int),
        start < s.len() ==> rows_from(s, cell_widths(s), width, start).len() >= 1,
    decreases s.len() - start,
{
    if start < s.len() {
        lemma_first_row(s, width, start);
        let end = row_end(cell_widths(s), width, start + 1, cell(s[start]));
        lemma_rows_flatten(s, width, end);
        let rest = rows_from(s, cell_widths(s), width, end);
        assert(rows_from(s, cell_widths(s), width, start).drop_first() =~= rest);
        assert(rows_from(s, cell_widths(s), width, start).flatten() =~= s.subrange(start, end) + rest.flatten());
        assert(rows_from(s, cell_widths(s), width, start).flatten() =~= s.subrange(start, s.len() as int));
    } else {
        assert(s.subrange(start, s.len() as int) =~= Seq::<char>::empty());
    }
}

proof fn lemma_rows_shape(s: Seq<char>, width: nat, start: int)
    requires
        0 <= start <= s.len(),
    ensures
        forall|k: int|
            0 <= k < rows_from(s, cell_widths(s), width, start).len() ==> {
                let row = #[trigger] rows_from(s, cell_widths(s), width, start)[k];
                &&& row.len() > 0
                &&& (cells(row) <= width || cells(row) == cell(row[0]))
            },
    decreases s.len() - start,
{
    if start < s.len() {
        lemma_first_row(s, width, start);
        let end = row_end(cell_widths(s), width, start + 1, cell(s[start]));
        lemma_rows_shape(s, width, end);
        let rest = rows_from(s, cell_widths(s), width, end);
        assert forall|k: int| 0 <= k < rows_from(s, cell_widths(s), width, start).len() implies {
            let row = #[trigger] rows_from(s, cell_widths(s), width, start)[k];
            &&& row.len() > 0
            &&& (cells(row) <= width || cells(row) == cell(row[0]))
        } by {
            if k > 0 {
                assert(rows_from(s, cell_widths(s), width, start)[k] == rest[k - 1]);
            }
        }
    }
}

proof fn lemma_rows_full(s: Seq<char>, width: nat, start: int)
    requires
        0 <= start <= s.len(),
    ensures
        forall|k: int|
            0 <= k < rows_from(s, cell_widths(s), width, start).len() - 1 ==> {
                &&& cells(#[trigger] rows_from(s, cell_widths(s), width, start)[k]) + cell(rows_from(s, cell_widths(s), width, start)[k + 1][0]) > width
                &&& cell(rows_from(s, cell_widths(s), width, start)[k + 1][0]) > 0
            },
    decreases s.len() - start,
{
    if start < s.len() {
        lemma_first_row(s, width, start);
        let end = row_end(cell_widths(s), width, start + 1, cell(s[start]));
        lemma_rows_full(s, width, end);
        let rest = rows_from(s, cell_widths(s), width, end);
        assert forall|k: int| 0 <= k < rows_from(s, cell_widths(s), width, start).len() - 1 implies {
            &&& cells(#[trigger] rows_from(s, cell_widths(s), width, start)[k]) + cell(rows_from(s, cell_widths(s), width, start)[k + 1][0]) > width
            &&& cell(rows_from(s, cell_widths(s), width, start)[k + 1][0]) > 0
        } by {
            if k > 0 {
                assert(rows_from(s, cell_widths(s), width, start)[k] == rest[k - 1]);
                assert(rows_from(s, cell_widths(s), width, start)[k + 1] == rest[k]);
            } else {
                if end >= s.len() {
                    assert(rest.len() == 0);
                }
                lemma_row_starts(s, width, end);
                assert(rows_from(s, cell_widths(s), width, start)[1] == rest[0]);
            }
        }
    }
}

/// Wrapping laws: there is always at least one row; the rows put back
/// together are the text; every row of a non-empty text is non-empty and fits
/// in `width` columns unless its first character alone is wider than that and
/// the rest of it takes no columns; and every row but the last is full, in
/// that the next row's first character takes columns and would not have
/// fitted after it.
pub proof fn lemma_wrap(s: Seq<char>, width: nat)
    requires
        width >= 1,
    ensures
        wrap(s, width).len() >= 1,
        wrap(s, width).flatten() == s,
        forall|k: int|
            0 <= k < wrap(s, width).len() ==> {
                let row = #[trigger] wrap(s, width)[k];
                &&& (s.len() > 0 ==> row.len() > 0)
                &&& (cells(row) <= width || cells(row) == cell(row[0]))
            },
        forall|k: int|
            0 <= k < wrap(s, width).len() - 1 ==> {
                &&& cells(#[trigger] wrap(s, width)[k]) + cell(wrap(s, width)[k + 1][0]) > width
                &&& cell(wrap(s, width)[k + 1][0]) > 0
            },
{
    if s.len() == 0 {
        let rows = wrap(s, width);
        rows.lemma_flatten_one_element();
        assert(rows.flatten() =~= s);
        assert(cells(rows[0]) == 0);
    } else {
        lemma_rows_flatten(s, width, 0);
        lemma_rows_shape(s, width, 0);
        lemma_rows_full(s, width, 0);
        assert(s.subrange(0, s.len() as int) =~= s);
    }
}

/// A zero-width character never starts a row of its own: it stays on the
/// row of the character before it.
pub proof fn lemma_wrap_zero_width(s: Seq<char>, width: nat)
    requires
        width >= 1,
    ensures
        forall|k: int| 1 <= k < wrap(s, width).len() ==> cell(#[trigger] wrap(s, width)[k][0]) > 0,
{
    let rows = wrap(s, width);
    if s.len() > 0 {
        lemma_rows_full(s, width, 0);
        assert forall|k: int| 1 <= k < rows.len() implies cell(#[trigger] rows[k][0]) > 0 by {
            assert(cells(rows[k - 1]) + cell(rows[k][0]) > width);
        }
    }
}

/// Sanitizing keeps one character per character and leaves no control
/// character, so no newline either: a sanitized command is a single line.
pub proof fn lemma_sanitized_single_line(s: Seq<char>)
    ensures
        sanitized(s).len() == s.len(),
        forall|i: int| 0 <= i < s.len() ==> !is_control_char(#[trigger] sanitized(s)[i]),
{
    assert forall|i: int| 0 <= i < s.len() implies !is_control_char(#[trigger] sanitized(s)[i]) by {
        assert(sanitized(s)[i] == sanitize_char(s[i]));
        assert(('\u{23ce}' as u32) == 0x23ce);
        assert((' ' as u32) == 0x20);
    }
}

proof fn lemma_cells_prefix(s: Seq<char>, k: int)
    requires
        0 <= k <= s.len(),
    ensures
        cells(s.subrange(0, k)) <= cells(s),
    decreases s.len() - k,
{
    if k < s.len() {
        lemma_cells_prefix(s, k + 1);
        lemma_cells_push(s, 0, k);
    } else {
        assert(s.subrange(0, k) =~= s);
    }
}

/// A text that fits in `width` columns is a single row.
pub proof fn lemma_fitting_text_is_one_row(s: Seq<char>, width: nat)
    requires
        width >= 1,
        cells(s) <= width,
    ensures
        wrap(s, width) == seq![s],
{
    if s.len() > 0 {
        lemma_cells_push(s, 0, 0);
        assert(s.subrange(0, 0) =~= Seq::<char>::empty());
        lemma_cells_prefix(s, 1);
        lemma_row_end_props(s, width, 0, 1, cell(s[0]));
        let end = row_end(cell_widths(s), width, 1, cell(s[0]));
        if end < s.len() {
            lemma_cells_push(s, 0, end);
            lemma_cells_prefix(s, end + 1);
        }
        assert(end == s.len());
        assert(s.subrange(0, end) =~= s);
        assert(rows_from(s, cell_widths(s), width, end) =~= Seq::<Seq<char>>::empty());
        assert(wrap(s, width) =~= seq![s]);
    } else {
        assert(s =~= Seq::<char>::empty());
    }
}

} // verus!
